//! Orders on texts and paths, and a stable sort.

use crate::path::{components, path_texts, same_path, FsPath};
use crate::text::{chars_of, lemma_views_push, text_eq, texts, views};
use vstd::prelude::*;

verus! {

/// How one value stands to another in an order.
#[derive(Debug, Clone, Copy, PartialEq, Eq, Structural)]
pub enum Relation {
    Before,
    Same,
    After,
}

pub open spec fn flipped(r: Relation) -> Relation {
    match r {
        Relation::Before => Relation::After,
        Relation::Same => Relation::Same,
        Relation::After => Relation::Before,
    }
}

/// `first`, unless it does not decide.
pub open spec fn or_else(first: Relation, second: Relation) -> Relation {
    if first == Relation::Same {
        second
    } else {
        first
    }
}

/// What makes `f` a total order.
pub open spec fn total_order<A>(f: spec_fn(A, A) -> Relation) -> bool {
    &&& forall|a: A, b: A| (#[trigger] f(a, b)) == Relation::Same <==> a == b
    &&& forall|a: A, b: A| #[trigger] f(b, a) == flipped(f(a, b))
    &&& forall|a: A, b: A, c: A|
        #[trigger] f(a, b) == Relation::Before && #[trigger] f(b, c) == Relation::Before ==> f(
            a,
            c,
        ) == Relation::Before
}

/// The lexicographic order over an order on elements.
pub open spec fn lexicographic<A>(
    a: Seq<A>,
    b: Seq<A>,
    f: spec_fn(A, A) -> Relation,
) -> Relation
    decreases a.len(),
{
    if a.len() == 0 {
        if b.len() == 0 {
            Relation::Same
        } else {
            Relation::Before
        }
    } else if b.len() == 0 {
        Relation::After
    } else {
        or_else(f(a[0], b[0]), lexicographic(a.skip(1), b.skip(1), f))
    }
}

pub proof fn lemma_lexicographic_same<A>(a: Seq<A>, b: Seq<A>, f: spec_fn(A, A) -> Relation)
    requires
        total_order(f),
    ensures
        lexicographic(a, b, f) == Relation::Same <==> a == b,
        lexicographic(b, a, f) == flipped(lexicographic(a, b, f)),
    decreases a.len(),
{
    if a.len() > 0 && b.len() > 0 {
        lemma_lexicographic_same(a.skip(1), b.skip(1), f);
        assert(f(b[0], a[0]) == flipped(f(a[0], b[0])));
        if a[0] == b[0] && a.skip(1) == b.skip(1) {
            assert(a =~= seq![a[0]] + a.skip(1));
            assert(b =~= seq![b[0]] + b.skip(1));
        }
        assert(f(a[0], b[0]) == Relation::Same <==> a[0] == b[0]);
    } else if a.len() == 0 && b.len() == 0 {
        assert(a =~= b);
    }
}

pub proof fn lemma_lexicographic_transitive<A>(
    a: Seq<A>,
    b: Seq<A>,
    c: Seq<A>,
    f: spec_fn(A, A) -> Relation,
)
    requires
        total_order(f),
        lexicographic(a, b, f) == Relation::Before,
        lexicographic(b, c, f) == Relation::Before,
    ensures
        lexicographic(a, c, f) == Relation::Before,
    decreases a.len(),
{
    if a.len() > 0 && b.len() > 0 && c.len() > 0 {
        let (x, y, z) = (f(a[0], b[0]), f(b[0], c[0]), f(a[0], c[0]));
        assert(x == Relation::Same <==> a[0] == b[0]);
        assert(y == Relation::Same <==> b[0] == c[0]);
        if x == Relation::Same && y == Relation::Same {
            assert(z == Relation::Same);
            lemma_lexicographic_transitive(a.skip(1), b.skip(1), c.skip(1), f);
        } else if x == Relation::Before && y == Relation::Before {
            assert(z == Relation::Before);
        }
    }
}

/// Characters are ordered by their code points.
pub open spec fn char_order(a: char, b: char) -> Relation {
    if (a as u32) < (b as u32) {
        Relation::Before
    } else if a == b {
        Relation::Same
    } else {
        Relation::After
    }
}

/// Texts are ordered as in a dictionary.
pub open spec fn text_order(a: Seq<char>, b: Seq<char>) -> Relation {
    lexicographic(a, b, |x: char, y: char| char_order(x, y))
}

/// The root comes before `.`, that before `..`, and that before every name.
pub open spec fn component_rank(c: Seq<char>) -> int {
    if c == seq!['/'] {
        0
    } else if c == seq!['.'] {
        1
    } else if c == seq!['.', '.'] {
        2
    } else {
        3
    }
}

pub open spec fn component_order(a: Seq<char>, b: Seq<char>) -> Relation {
    if component_rank(a) < component_rank(b) {
        Relation::Before
    } else if component_rank(a) > component_rank(b) {
        Relation::After
    } else {
        text_order(a, b)
    }
}

/// Paths are ordered by their components, from the first on.
pub open spec fn path_order(p: Seq<char>, q: Seq<char>) -> Relation {
    lexicographic(
        components(p),
        components(q),
        |x: Seq<char>, y: Seq<char>| component_order(x, y),
    )
}

/// Paths with fewer components come first.
pub open spec fn depth_order(p: Seq<char>, q: Seq<char>) -> Relation {
    let (a, b) = (components(p).len(), components(q).len());
    if a < b {
        Relation::Before
    } else if a > b {
        Relation::After
    } else {
        path_order(p, q)
    }
}

pub proof fn lemma_char_order_total()
    ensures
        total_order(|x: char, y: char| char_order(x, y)),
{
    let f = |x: char, y: char| char_order(x, y);
    assert forall|a: char, b: char| (#[trigger] f(a, b)) == Relation::Same <==> a == b by {}
    assert forall|a: char, b: char| #[trigger] f(b, a) == flipped(f(a, b)) by {
        lemma_char_code(a, b);
    }
}

/// A character is determined by its code point.
proof fn lemma_char_code(a: char, b: char)
    ensures
        a as u32 == b as u32 ==> a == b,
{
}

pub proof fn lemma_text_order_total()
    ensures
        total_order(|x: Seq<char>, y: Seq<char>| text_order(x, y)),
{
    lemma_char_order_total();
    let g = |x: char, y: char| char_order(x, y);
    let f = |x: Seq<char>, y: Seq<char>| text_order(x, y);
    assert forall|a: Seq<char>, b: Seq<char>| (#[trigger] f(a, b)) == Relation::Same <==> a
        == b by {
        lemma_lexicographic_same(a, b, g);
    }
    assert forall|a: Seq<char>, b: Seq<char>| #[trigger] f(b, a) == flipped(f(a, b)) by {
        lemma_lexicographic_same(a, b, g);
    }
    assert forall|a: Seq<char>, b: Seq<char>, c: Seq<char>|
        #[trigger] f(a, b) == Relation::Before && #[trigger] f(b, c) == Relation::Before implies f(
        a,
        c,
    ) == Relation::Before by {
        lemma_lexicographic_transitive(a, b, c, g);
    }
}

pub proof fn lemma_component_order_total()
    ensures
        total_order(|x: Seq<char>, y: Seq<char>| component_order(x, y)),
{
    lemma_text_order_total();
    let g = |x: Seq<char>, y: Seq<char>| text_order(x, y);
    let f = |x: Seq<char>, y: Seq<char>| component_order(x, y);
    assert forall|a: Seq<char>, b: Seq<char>| (#[trigger] f(a, b)) == Relation::Same <==> a
        == b by {
        assert(g(a, b) == Relation::Same <==> a == b);
    }
    assert forall|a: Seq<char>, b: Seq<char>| #[trigger] f(b, a) == flipped(f(a, b)) by {
        assert(g(b, a) == flipped(g(a, b)));
    }
    assert forall|a: Seq<char>, b: Seq<char>, c: Seq<char>|
        #[trigger] f(a, b) == Relation::Before && #[trigger] f(b, c) == Relation::Before implies f(
        a,
        c,
    ) == Relation::Before by {
        if component_rank(a) == component_rank(b) && component_rank(b) == component_rank(c) {
            assert(g(a, b) == Relation::Before);
            assert(g(b, c) == Relation::Before);
            assert(g(a, c) == Relation::Before);
        }
    }
}

/// The order of paths is total on what the paths name, and so is the one by depth.
pub proof fn lemma_path_order_total(p: Seq<char>, q: Seq<char>, r: Seq<char>)
    ensures
        path_order(p, q) == Relation::Same <==> components(p) == components(q),
        path_order(q, p) == flipped(path_order(p, q)),
        path_order(p, q) == Relation::Before && path_order(q, r) == Relation::Before ==> path_order(
            p,
            r,
        ) == Relation::Before,
        depth_order(p, q) == Relation::Same <==> components(p) == components(q),
        depth_order(q, p) == flipped(depth_order(p, q)),
        depth_order(p, q) == Relation::Before && depth_order(q, r) == Relation::Before
            ==> depth_order(p, r) == Relation::Before,
{
    lemma_component_order_total();
    let f = |x: Seq<char>, y: Seq<char>| component_order(x, y);
    lemma_lexicographic_same(components(p), components(q), f);
    if path_order(p, q) == Relation::Before && path_order(q, r) == Relation::Before {
        lemma_lexicographic_transitive(components(p), components(q), components(r), f);
    }
}

/// A path comes before all that lies below it.
pub proof fn lemma_parent_first(p: Seq<char>, q: Seq<char>)
    requires
        crate::path::within(q, p),
        components(p) != components(q),
    ensures
        depth_order(p, q) == Relation::Before,
        path_order(p, q) == Relation::Before,
{
    let (a, b) = (components(p), components(q));
    assert(b.take(b.len() as int) =~= b);
    assert(a.len() < b.len());
    lemma_component_order_total();
    lemma_prefix_before(a, b);
}

proof fn lemma_prefix_before(a: Seq<Seq<char>>, b: Seq<Seq<char>>)
    requires
        a.len() < b.len(),
        b.take(a.len() as int) == a,
        total_order(|x: Seq<char>, y: Seq<char>| component_order(x, y)),
    ensures
        lexicographic(a, b, |x: Seq<char>, y: Seq<char>| component_order(x, y))
            == Relation::Before,
    decreases a.len(),
{
    let f = |x: Seq<char>, y: Seq<char>| component_order(x, y);
    if a.len() > 0 {
        assert(a[0] == b[0]);
        assert(f(a[0], b[0]) == Relation::Same);
        assert(b.skip(1).take(a.skip(1).len() as int) =~= a.skip(1));
        lemma_prefix_before(a.skip(1), b.skip(1));
    }
}

/// How two texts stand to one another.
pub fn order_texts(a: &str, b: &str) -> (r: Relation)
    ensures
        r == text_order(a@, b@),
{
    let x = chars_of(a);
    let y = chars_of(b);
    let ghost f = |x: char, y: char| char_order(x, y);
    let mut i: usize = 0;
    assert(x@.skip(0) =~= a@);
    assert(y@.skip(0) =~= b@);
    while i < x.len() && i < y.len()
        invariant
            i <= x@.len(),
            i <= y@.len(),
            f == (|x: char, y: char| char_order(x, y)),
            text_order(a@, b@) == lexicographic(x@.skip(i as int), y@.skip(i as int), f),
        decreases x@.len() - i,
    {
        let c: char = x[i];
        let d: char = y[i];
        let ghost s = x@.skip(i as int);
        let ghost t = y@.skip(i as int);
        proof {
            assert(s[0] == c && t[0] == d);
            assert(f(s[0], t[0]) == char_order(c, d));
            assert(s.skip(1) =~= x@.skip(i + 1));
            assert(t.skip(1) =~= y@.skip(i + 1));
        }
        if (c as u32) < (d as u32) {
            return Relation::Before;
        }
        if c != d {
            return Relation::After;
        }
        i += 1;
    }
    if i < y.len() {
        Relation::Before
    } else if i < x.len() {
        Relation::After
    } else {
        Relation::Same
    }
}

fn rank_of_component(c: &str) -> (r: u8)
    ensures
        r == component_rank(c@),
{
    proof {
        reveal_strlit("/");
        reveal_strlit(".");
        reveal_strlit("..");
        assert("/"@ =~= seq!['/']);
        assert("."@ =~= seq!['.']);
        assert(".."@ =~= seq!['.', '.']);
    }
    if text_eq(c, "/") {
        0
    } else if text_eq(c, ".") {
        1
    } else if text_eq(c, "..") {
        2
    } else {
        3
    }
}

fn order_components(a: &str, b: &str) -> (r: Relation)
    ensures
        r == component_order(a@, b@),
{
    let x: u8 = rank_of_component(a);
    let y: u8 = rank_of_component(b);
    if x < y {
        Relation::Before
    } else if x > y {
        Relation::After
    } else {
        order_texts(a, b)
    }
}

/// How two paths stand to one another.
pub fn order_paths(p: &FsPath, q: &FsPath) -> (r: Relation)
    ensures
        r == path_order(p@, q@),
{
    let a = p.components();
    let b = q.components();
    let ghost f = |x: Seq<char>, y: Seq<char>| component_order(x, y);
    let ghost s = texts(a@);
    let ghost t = texts(b@);
    let mut i: usize = 0;
    assert(s.skip(0) =~= components(p@));
    assert(t.skip(0) =~= components(q@));
    while i < a.len() && i < b.len()
        invariant
            i <= a@.len(),
            i <= b@.len(),
            s == texts(a@),
            t == texts(b@),
            f == (|x: Seq<char>, y: Seq<char>| component_order(x, y)),
            path_order(p@, q@) == lexicographic(s.skip(i as int), t.skip(i as int), f),
        decreases a@.len() - i,
    {
        let here = order_components(&a[i], &b[i]);
        proof {
            assert(s.skip(i as int)[0] == a@[i as int]@);
            assert(t.skip(i as int)[0] == b@[i as int]@);
            assert(f(s.skip(i as int)[0], t.skip(i as int)[0]) == here);
            assert(s.skip(i as int).skip(1) =~= s.skip(i + 1));
            assert(t.skip(i as int).skip(1) =~= t.skip(i + 1));
        }
        match here {
            Relation::Same => {},
            _ => {
                return here;
            },
        }
        i += 1;
    }
    if i < b.len() {
        Relation::Before
    } else if i < a.len() {
        Relation::After
    } else {
        Relation::Same
    }
}

/// How two paths stand to one another when shallow paths come first.
pub fn order_by_depth(p: &FsPath, q: &FsPath) -> (r: Relation)
    ensures
        r == depth_order(p@, q@),
{
    let a: usize = p.depth();
    let b: usize = q.depth();
    if a < b {
        Relation::Before
    } else if a > b {
        Relation::After
    } else {
        order_paths(p, q)
    }
}

/// `s` with `x` put in behind the last value that may stand before it.
pub open spec fn inserted<A>(s: Seq<A>, x: A, le: spec_fn(A, A) -> bool) -> Seq<A>
    decreases s.len(),
{
    if s.len() > 0 && !le(s.last(), x) {
        inserted(s.drop_last(), x, le).push(s.last())
    } else {
        s.push(x)
    }
}

/// `s` in the order of `le`; values that may stand either way keep the order they had.
pub open spec fn sorted<A>(s: Seq<A>, le: spec_fn(A, A) -> bool) -> Seq<A>
    decreases s.len(),
{
    if s.len() == 0 {
        s
    } else {
        inserted(sorted(s.drop_last(), le), s.last(), le)
    }
}

pub open spec fn in_order<A>(s: Seq<A>, le: spec_fn(A, A) -> bool) -> bool {
    forall|i: int, j: int| #![trigger s[i], s[j]] 0 <= i <= j < s.len() ==> le(s[i], s[j])
}

/// What `le` must be for a sort to make sense.
#[verifier::opaque]
pub open spec fn is_total<A>(le: spec_fn(A, A) -> bool) -> bool {
    &&& forall|a: A, b: A| #[trigger] le(a, b) || le(b, a)
    &&& forall|a: A, b: A, c: A| #[trigger] le(a, b) && #[trigger] le(b, c) ==> le(a, c)
}

proof fn lemma_inserted<A>(s: Seq<A>, x: A, le: spec_fn(A, A) -> bool)
    ensures
        inserted(s, x, le).to_multiset() == s.to_multiset().insert(x),
        inserted(s, x, le).len() == s.len() + 1,
        is_total(le) && in_order(s, le) ==> in_order(inserted(s, x, le), le),
    decreases s.len(),
{
    broadcast use vstd::seq_lib::group_to_multiset_ensures;

    reveal(is_total);
    let r = inserted(s, x, le);
    if s.len() > 0 && !le(s.last(), x) {
        let head = s.drop_last();
        lemma_inserted(head, x, le);
        assert(s =~= head.push(s.last()));
        assert(r.to_multiset() =~= s.to_multiset().insert(x));
        if is_total(le) && in_order(s, le) {
            assert(in_order(head, le)) by {
                assert forall|i: int, j: int|
                    #![trigger head[i], head[j]]
                    0 <= i <= j < head.len() implies le(head[i], head[j]) by {
                    assert(head[i] == s[i] && head[j] == s[j]);
                }
            }
            let m = inserted(head, x, le);
            assert forall|i: int, j: int|
                #![trigger r[i], r[j]]
                0 <= i <= j < r.len() implies le(r[i], r[j]) by {
                if j == r.len() - 1 {
                    let y = r[i];
                    if i < j {
                        assert(m.contains(y)) by {
                            assert(m[i] == y);
                        }
                        m.to_multiset_ensures();
                        head.to_multiset_ensures();
                        assert(m.to_multiset().count(y) > 0);
                        if y != x {
                            assert(head.to_multiset().count(y) > 0);
                            assert(head.contains(y));
                            let k = choose|k: int| 0 <= k < head.len() && head[k] == y;
                            assert(le(s[k], s[s.len() - 1]));
                        } else {
                            assert(le(x, s.last()) || le(s.last(), x));
                        }
                    } else {
                        assert(le(y, y) || le(y, y));
                    }
                } else {
                    assert(r[i] == m[i] && r[j] == m[j]);
                }
            }
        }
    } else {
        assert(r.to_multiset() =~= s.to_multiset().insert(x));
        if is_total(le) && in_order(s, le) {
            assert forall|i: int, j: int|
                #![trigger r[i], r[j]]
                0 <= i <= j < r.len() implies le(r[i], r[j]) by {
                if j == r.len() - 1 {
                    if i < j {
                        assert(le(s[i], s[s.len() - 1]));
                        assert(le(s[s.len() - 1], x));
                    } else {
                        assert(le(x, x) || le(x, x));
                    }
                } else {
                    assert(r[i] == s[i] && r[j] == s[j]);
                }
            }
        }
    }
}

/// Sorting keeps the values and puts them in order.
pub proof fn lemma_sorted<A>(s: Seq<A>, le: spec_fn(A, A) -> bool)
    ensures
        sorted(s, le).to_multiset() == s.to_multiset(),
        sorted(s, le).len() == s.len(),
        is_total(le) ==> in_order(sorted(s, le), le),
    decreases s.len(),
{
    broadcast use vstd::seq_lib::group_to_multiset_ensures;

    if s.len() > 0 {
        lemma_sorted(s.drop_last(), le);
        lemma_inserted(sorted(s.drop_last(), le), s.last(), le);
        assert(s =~= s.drop_last().push(s.last()));
    }
}

/// Whether no two of the values are the same.
pub open spec fn all_apart<A>(s: Seq<A>, same: spec_fn(A, A) -> bool) -> bool {
    forall|i: int, j: int| #![trigger s[i], s[j]] 0 <= i < j < s.len() ==> !same(s[i], s[j])
}

proof fn lemma_inserted_apart<A>(
    s: Seq<A>,
    x: A,
    le: spec_fn(A, A) -> bool,
    same: spec_fn(A, A) -> bool,
)
    requires
        all_apart(s, same),
        forall|i: int| 0 <= i < s.len() ==> !same(#[trigger] s[i], x) && !same(x, s[i]),
    ensures
        all_apart(inserted(s, x, le), same),
        forall|i: int|
            0 <= i < inserted(s, x, le).len() ==> s.contains(#[trigger] inserted(s, x, le)[i])
                || inserted(s, x, le)[i] == x,
    decreases s.len(),
{
    let r = inserted(s, x, le);
    if s.len() > 0 && !le(s.last(), x) {
        let head = s.drop_last();
        let rest = inserted(head, x, le);
        assert forall|i: int, j: int|
            #![trigger head[i], head[j]]
            0 <= i < j < head.len() implies !same(head[i], head[j]) by {
            assert(head[i] == s[i] && head[j] == s[j]);
        }
        assert forall|i: int| 0 <= i < head.len() implies !same(#[trigger] head[i], x) && !same(
            x,
            head[i],
        ) by {
            assert(head[i] == s[i]);
        }
        lemma_inserted_apart(head, x, le, same);
        let last = s[s.len() - 1];
        assert forall|i: int| 0 <= i < rest.len() implies !same(#[trigger] rest[i], last) && (
        s.contains(rest[i]) || rest[i] == x) by {
            if rest[i] != x {
                assert(head.contains(rest[i]));
                let k = choose|k: int| 0 <= k < head.len() && head[k] == rest[i];
                assert(s[k] == rest[i]);
            }
        }
        assert forall|i: int, j: int|
            #![trigger r[i], r[j]]
            0 <= i < j < r.len() implies !same(r[i], r[j]) by {
            assert(r[i] == rest[i]);
            if j < rest.len() {
                assert(r[j] == rest[j]);
            }
        }
        assert forall|i: int| 0 <= i < r.len() implies s.contains(#[trigger] r[i]) || r[i]
            == x by {
            if i < rest.len() {
                assert(r[i] == rest[i]);
            } else {
                assert(s.contains(last));
            }
        }
    } else {
        assert forall|i: int| 0 <= i < r.len() implies s.contains(#[trigger] r[i]) || r[i]
            == x by {
            if i < s.len() {
                assert(s.contains(s[i]));
            }
        }
    }
}

/// Values that are not the same are kept apart by sorting.
pub proof fn lemma_sorted_apart<A>(
    s: Seq<A>,
    le: spec_fn(A, A) -> bool,
    same: spec_fn(A, A) -> bool,
)
    requires
        all_apart(s, same),
        forall|i: int, j: int|
            #![trigger s[i], s[j]]
            0 <= i < s.len() && 0 <= j < s.len() && same(s[i], s[j]) ==> same(s[j], s[i]),
    ensures
        all_apart(sorted(s, le), same),
        forall|i: int| 0 <= i < sorted(s, le).len() ==> s.contains(#[trigger] sorted(s, le)[i]),
    decreases s.len(),
{
    if s.len() > 0 {
        let head = s.drop_last();
        let x = s[s.len() - 1];
        assert forall|i: int, j: int|
            #![trigger head[i], head[j]]
            0 <= i < head.len() && 0 <= j < head.len() implies (i < j ==> !same(head[i], head[j]))
            && (same(head[i], head[j]) ==> same(head[j], head[i])) by {
            assert(head[i] == s[i] && head[j] == s[j]);
        }
        lemma_sorted_apart(head, le, same);
        let before = sorted(head, le);
        assert forall|i: int| 0 <= i < before.len() implies !same(#[trigger] before[i], x) && !same(
            x,
            before[i],
        ) && s.contains(before[i]) by {
            assert(head.contains(before[i]));
            let k = choose|k: int| 0 <= k < head.len() && head[k] == before[i];
            assert(s[k] == before[i]);
        }
        lemma_inserted_apart(before, x, le, same);
        let r = sorted(s, le);
        assert forall|i: int| 0 <= i < r.len() implies s.contains(#[trigger] r[i]) by {
            if before.contains(r[i]) {
                let k = choose|k: int| 0 <= k < before.len() && before[k] == r[i];
                assert(s.contains(before[k]));
            } else {
                assert(s.contains(x));
            }
        }
    }
}

/// Puts the values in the order that `at_most` decides.
pub fn sort_by<T: View, F: Fn(&T, &T) -> bool>(
    values: Vec<T>,
    at_most: F,
    Ghost(le): Ghost<spec_fn(T::V, T::V) -> bool>,
) -> (r: Vec<T>)
    requires
        forall|a: &T, b: &T| #[trigger] at_most.requires((a, b)),
        forall|a: &T, b: &T, out: bool| #[trigger]
            at_most.ensures((a, b), out) ==> out == le(a@, b@),
    ensures
        views(r@) == sorted(views(values@), le),
{
    let mut v = values;
    let ghost s = views(v@);
    let mut i: usize = 0;
    assert(s.take(0) =~= Seq::<T::V>::empty());
    assert(views(v@).take(0) =~= Seq::<T::V>::empty());
    while i < v.len()
        invariant
            i <= v@.len() == s.len(),
            forall|a: &T, b: &T| #[trigger] at_most.requires((a, b)),
            forall|a: &T, b: &T, out: bool| #[trigger]
                at_most.ensures((a, b), out) ==> out == le(a@, b@),
            views(v@).take(i as int) == sorted(s.take(i as int), le),
            views(v@).skip(i as int) == s.skip(i as int),
        decreases s.len() - i,
    {
        let ghost done = views(v@).take(i as int);
        let ghost whole = views(v@);
        let x = v.remove(i);
        proof {
            assert(whole[i as int] == whole.skip(i as int)[0]);
            assert(s[i as int] == s.skip(i as int)[0]);
            assert(x@ == s[i as int]);
            assert(views(v@).take(i as int) =~= done);
            assert(views(v@).skip(i as int) =~= s.skip(i + 1)) by {
                assert forall|k: int| 0 <= k < s.len() - i - 1 implies views(v@).skip(i as int)[k]
                    == s.skip(i + 1)[k] by {
                    assert(views(v@)[i + k] == whole[i + k + 1]);
                    assert(whole[i + k + 1] == whole.skip(i as int)[k + 1]);
                    assert(s[i + k + 1] == s.skip(i as int)[k + 1]);
                }
            }
        }
        let mut j: usize = i;
        let ghost rest = views(v@);
        assert(done.take(i as int) =~= done);
        assert(inserted(done, x@, le) =~= inserted(done.take(i as int), x@, le) + done.skip(
            i as int,
        ));
        while j > 0 && !at_most(&v[j - 1], &x)
            invariant
                j <= i <= v@.len(),
                forall|a: &T, b: &T| #[trigger] at_most.requires((a, b)),
                forall|a: &T, b: &T, out: bool| #[trigger]
                    at_most.ensures((a, b), out) ==> out == le(a@, b@),
                views(v@) == rest,
                done == rest.take(i as int),
                inserted(done, x@, le) == inserted(done.take(j as int), x@, le) + done.skip(
                    j as int,
                ),
            decreases j,
        {
            proof {
                let d = done.take(j as int);
                assert(d.last() == views(v@)[j - 1]);
                assert(d.drop_last() =~= done.take(j - 1));
                assert(done.skip(j - 1) =~= seq![d.last()] + done.skip(j as int));
                assert(inserted(d, x@, le) + done.skip(j as int) =~= inserted(
                    done.take(j - 1),
                    x@,
                    le,
                ) + done.skip(j - 1));
            }
            j -= 1;
        }
        let ghost y = x@;
        v.insert(j, x);
        proof {
            let d = done.take(j as int);
            if j > 0 {
                assert(d.last() == rest[j - 1]);
            }
            assert(views(v@) =~= rest.insert(j as int, y));
            assert(inserted(d, y, le) == d.push(y));
            assert(views(v@).take(i + 1) =~= d.push(y) + done.skip(j as int));
            assert(s.take(i + 1).drop_last() =~= s.take(i as int));
            assert(views(v@).skip(i + 1) =~= rest.skip(i as int));
        }
        i += 1;
    }
    assert(views(v@).take(i as int) =~= views(v@));
    assert(s.take(i as int) =~= s);
    v
}

/// The values without those that are the same as the one before.
pub open spec fn deduplicated<A>(s: Seq<A>, same: spec_fn(A, A) -> bool) -> Seq<A>
    decreases s.len(),
{
    if s.len() == 0 {
        s
    } else {
        let before = deduplicated(s.drop_last(), same);
        if before.len() > 0 && same(s.last(), before.last()) {
            before
        } else {
            before.push(s.last())
        }
    }
}

/// Paths in the order of their components, from the first on.
pub open spec fn path_le(p: Seq<char>, q: Seq<char>) -> bool {
    path_order(p, q) != Relation::After
}

/// Paths with fewer components first.
pub open spec fn depth_le(p: Seq<char>, q: Seq<char>) -> bool {
    depth_order(p, q) != Relation::After
}

pub proof fn lemma_path_orders_total()
    ensures
        is_total(|p: Seq<char>, q: Seq<char>| path_le(p, q)),
        is_total(|p: Seq<char>, q: Seq<char>| depth_le(p, q)),
{
    reveal(is_total);
    let f = |p: Seq<char>, q: Seq<char>| path_le(p, q);
    let g = |p: Seq<char>, q: Seq<char>| depth_le(p, q);
    assert forall|a: Seq<char>, b: Seq<char>| #[trigger] f(a, b) || f(b, a) by {
        lemma_path_order_total(a, b, b);
    }
    assert forall|a: Seq<char>, b: Seq<char>| #[trigger] g(a, b) || g(b, a) by {
        lemma_path_order_total(a, b, b);
    }
    assert forall|a: Seq<char>, b: Seq<char>, c: Seq<char>| #[trigger] f(a, b) && #[trigger] f(
        b,
        c,
    ) implies f(a, c) by {
        lemma_path_order_total(a, b, c);
        lemma_path_order_total(b, c, c);
        lemma_path_order_total(a, c, c);
    }
    assert forall|a: Seq<char>, b: Seq<char>, c: Seq<char>| #[trigger] g(a, b) && #[trigger] g(
        b,
        c,
    ) implies g(a, c) by {
        lemma_path_order_total(a, b, c);
        lemma_path_order_total(b, c, c);
        lemma_path_order_total(a, c, c);
    }
}

/// What makes `f` an order that is total but for values that are the same.
#[verifier::opaque]
pub open spec fn orders<A>(
    f: spec_fn(A, A) -> Relation,
    same: spec_fn(A, A) -> bool,
) -> bool {
    &&& forall|a: A, b: A| (#[trigger] f(a, b)) == Relation::Same <==> same(a, b)
    &&& forall|a: A, b: A, c: A|
        #[trigger] f(a, b) == Relation::Before && #[trigger] f(b, c) == Relation::Before ==> f(
            a,
            c,
        ) == Relation::Before
    &&& forall|a: A, b: A, c: A| #[trigger] same(a, b) ==> #[trigger] f(a, c) == f(b, c)
    &&& forall|a: A, b: A| #[trigger] same(a, b) ==> same(b, a)
    &&& forall|a: A| #[trigger] same(a, a)
}

proof fn lemma_orders<A>(
    f: spec_fn(A, A) -> Relation,
    same: spec_fn(A, A) -> bool,
    a: A,
    b: A,
    c: A,
)
    requires
        orders(f, same),
    ensures
        f(a, b) == Relation::Same <==> same(a, b),
        f(a, b) == Relation::Before && f(b, c) == Relation::Before ==> f(a, c)
            == Relation::Before,
        same(a, b) ==> f(a, c) == f(b, c),
        same(a, b) ==> same(b, a),
        same(a, a),
{
    reveal(orders);
}

/// Whether each value comes before the next.
pub open spec fn ascending<A>(s: Seq<A>, f: spec_fn(A, A) -> Relation) -> bool {
    forall|i: int, j: int|
        #![trigger s[i], s[j]]
        0 <= i < j < s.len() ==> f(s[i], s[j]) == Relation::Before
}

/// Whether no value comes before an earlier one.
pub open spec fn weakly_ascending<A>(s: Seq<A>, f: spec_fn(A, A) -> Relation) -> bool {
    forall|i: int, j: int|
        #![trigger s[i], s[j]]
        0 <= i <= j < s.len() ==> f(s[i], s[j]) != Relation::After
}

proof fn lemma_deduplicated_ascends<A>(
    s: Seq<A>,
    f: spec_fn(A, A) -> Relation,
    same: spec_fn(A, A) -> bool,
)
    requires
        orders(f, same),
        weakly_ascending(s, f),
    ensures
        ascending(deduplicated(s, same), f),
        s.len() > 0 ==> deduplicated(s, same).len() > 0 && same(
            deduplicated(s, same).last(),
            s.last(),
        ),
    decreases s.len(),
{
    if s.len() > 0 {
        let h = s.drop_last();
        let x = s.last();
        assert(weakly_ascending(h, f)) by {
            assert forall|i: int, j: int|
                #![trigger h[i], h[j]]
                0 <= i <= j < h.len() implies f(h[i], h[j]) != Relation::After by {
                assert(h[i] == s[i] && h[j] == s[j]);
            }
        }
        lemma_deduplicated_ascends(h, f, same);
        let rh = deduplicated(h, same);
        let r = deduplicated(s, same);
        lemma_orders(f, same, x, x, x);
        if rh.len() > 0 && same(x, rh.last()) {
            lemma_orders(f, same, x, rh.last(), x);
        } else {
            lemma_ascending_push(h, rh, x, f, same);
        }
    }
}

proof fn lemma_ascending_push<A>(
    h: Seq<A>,
    rh: Seq<A>,
    x: A,
    f: spec_fn(A, A) -> Relation,
    same: spec_fn(A, A) -> bool,
)
    requires
        orders(f, same),
        ascending(rh, f),
        rh.len() > 0 ==> h.len() > 0 && same(rh.last(), h.last()) && f(h.last(), x)
            != Relation::After && !same(x, rh.last()),
    ensures
        ascending(rh.push(x), f),
{
    let r = rh.push(x);
    assert forall|i: int, j: int| #![trigger r[i], r[j]] 0 <= i < j < r.len() implies f(r[i], r[j])
        == Relation::Before by {
        if j < rh.len() {
            assert(r[i] == rh[i] && r[j] == rh[j]);
        } else {
            let l = rh.last();
            lemma_orders(f, same, l, h.last(), x);
            lemma_orders(f, same, l, x, x);
            if i < rh.len() - 1 {
                assert(f(rh[i], rh[rh.len() - 1]) == Relation::Before);
                lemma_orders(f, same, rh[i], l, x);
            }
        }
    }
}

/// Taking out repeated values takes out no other.
proof fn lemma_deduplicated_members<A>(s: Seq<A>, same: spec_fn(A, A) -> bool)
    ensures
        forall|i: int|
            0 <= i < deduplicated(s, same).len() ==> s.contains(
                #[trigger] deduplicated(s, same)[i],
            ),
    decreases s.len(),
{
    if s.len() > 0 {
        let h = s.drop_last();
        lemma_deduplicated_members(h, same);
        let rh = deduplicated(h, same);
        let r = deduplicated(s, same);
        assert forall|i: int| 0 <= i < r.len() implies s.contains(#[trigger] r[i]) by {
            if i < rh.len() {
                assert(r[i] == rh[i]);
                assert(h.contains(rh[i]));
                let k = choose|k: int| 0 <= k < h.len() && h[k] == rh[i];
                assert(s[k] == r[i]);
            } else {
                assert(s[s.len() - 1] == r[i]);
            }
        }
    }
}

/// Every value is still there, or one that is the same.
proof fn lemma_deduplicated_covers<A>(s: Seq<A>, same: spec_fn(A, A) -> bool, k: int)
    requires
        forall|a: A| #[trigger] same(a, a),
        0 <= k < s.len(),
    ensures
        exists|i: int|
            0 <= i < deduplicated(s, same).len() && same(s[k], #[trigger] deduplicated(s, same)[i]),
    decreases s.len(),
{
    let h = s.drop_last();
    let rh = deduplicated(h, same);
    let r = deduplicated(s, same);
    if k < h.len() {
        lemma_deduplicated_covers(h, same, k);
        let i = choose|i: int| 0 <= i < rh.len() && same(h[k], #[trigger] rh[i]);
        assert(r[i] == rh[i]);
    } else {
        let n = r.len() - 1;
        if rh.len() > 0 && same(s.last(), rh.last()) {
            assert(r[n] == rh.last());
        } else {
            assert(r[n] == s.last());
            assert(same(s[k], s[k]));
        }
    }
}

/// Values that were put in order and freed of repeated ones: each comes before the next.
pub proof fn lemma_sorted_set<A>(
    s: Seq<A>,
    le: spec_fn(A, A) -> bool,
    f: spec_fn(A, A) -> Relation,
    same: spec_fn(A, A) -> bool,
)
    requires
        orders(f, same),
        is_total(le),
        forall|p: A, q: A| #[trigger] le(p, q) == (f(p, q) != Relation::After),
    ensures
        ascending(deduplicated(sorted(s, le), same), f),
{
    let t = sorted(s, le);
    lemma_sorted(s, le);
    assert(weakly_ascending(t, f)) by {
        assert forall|i: int, j: int|
            #![trigger t[i], t[j]]
            0 <= i <= j < t.len() implies f(t[i], t[j]) != Relation::After by {
            assert(le(t[i], t[j]));
        }
    }
    lemma_deduplicated_ascends(t, f, same);
}

/// Each of the values that were put in order and freed of repeated ones is one of those given.
pub proof fn lemma_sorted_set_member<A>(
    s: Seq<A>,
    le: spec_fn(A, A) -> bool,
    same: spec_fn(A, A) -> bool,
    i: int,
) -> (k: int)
    requires
        0 <= i < deduplicated(sorted(s, le), same).len(),
    ensures
        0 <= k < s.len(),
        s[k] == deduplicated(sorted(s, le), same)[i],
{
    let t = sorted(s, le);
    let x = deduplicated(t, same)[i];
    lemma_sorted(s, le);
    lemma_deduplicated_members(t, same);
    s.to_multiset_ensures();
    t.to_multiset_ensures();
    assert(t.contains(x));
    assert(t.to_multiset().count(x) > 0);
    assert(s.contains(x));
    choose|k: int| 0 <= k < s.len() && s[k] == x
}

/// Each of the values given is still there once they were put in order and freed of repeated
/// ones, or one that is the same.
pub proof fn lemma_sorted_set_covers<A>(
    s: Seq<A>,
    le: spec_fn(A, A) -> bool,
    same: spec_fn(A, A) -> bool,
    k: int,
) -> (i: int)
    requires
        0 <= k < s.len(),
        forall|a: A| #[trigger] same(a, a),
    ensures
        0 <= i < deduplicated(sorted(s, le), same).len(),
        same(s[k], deduplicated(sorted(s, le), same)[i]),
{
    let t = sorted(s, le);
    let r = deduplicated(t, same);
    lemma_sorted(s, le);
    s.to_multiset_ensures();
    t.to_multiset_ensures();
    assert(s.contains(s[k]));
    assert(s.to_multiset().count(s[k]) > 0);
    assert(t.contains(s[k]));
    let j = choose|j: int| 0 <= j < t.len() && t[j] == s[k];
    lemma_deduplicated_covers(t, same, j);
    choose|i: int| 0 <= i < r.len() && same(t[j], #[trigger] r[i])
}

/// The orders on paths tell all paths apart that do not name the same.
pub proof fn lemma_path_orders()
    ensures
        orders(
            |p: Seq<char>, q: Seq<char>| path_order(p, q),
            |p: Seq<char>, q: Seq<char>| same_path(p, q),
        ),
        orders(
            |p: Seq<char>, q: Seq<char>| depth_order(p, q),
            |p: Seq<char>, q: Seq<char>| same_path(p, q),
        ),
{
    reveal(orders);
    let f = |p: Seq<char>, q: Seq<char>| path_order(p, q);
    let g = |p: Seq<char>, q: Seq<char>| depth_order(p, q);
    assert forall|a: Seq<char>, b: Seq<char>| (#[trigger] f(a, b)) == Relation::Same
        <==> same_path(a, b) by {
        lemma_path_order_total(a, b, b);
    }
    assert forall|a: Seq<char>, b: Seq<char>| (#[trigger] g(a, b)) == Relation::Same
        <==> same_path(a, b) by {
        lemma_path_order_total(a, b, b);
    }
    assert forall|a: Seq<char>, b: Seq<char>, c: Seq<char>|
        #[trigger] f(a, b) == Relation::Before && #[trigger] f(b, c) == Relation::Before implies f(
        a,
        c,
    ) == Relation::Before by {
        lemma_path_order_total(a, b, c);
    }
    assert forall|a: Seq<char>, b: Seq<char>, c: Seq<char>|
        #[trigger] g(a, b) == Relation::Before && #[trigger] g(b, c) == Relation::Before implies g(
        a,
        c,
    ) == Relation::Before by {
        lemma_path_order_total(a, b, c);
    }
}

fn path_at_most(a: &FsPath, b: &FsPath) -> (r: bool)
    ensures
        r == path_le(a@, b@),
{
    match order_paths(a, b) {
        Relation::After => false,
        _ => true,
    }
}

fn depth_at_most(a: &FsPath, b: &FsPath) -> (r: bool)
    ensures
        r == depth_le(a@, b@),
{
    match order_by_depth(a, b) {
        Relation::After => false,
        _ => true,
    }
}

/// Puts paths in order and takes repeated ones out.
pub fn sort_paths(paths: Vec<FsPath>) -> (r: Vec<FsPath>)
    ensures
        path_texts(r@) == deduplicated(
            sorted(path_texts(paths@), |p: Seq<char>, q: Seq<char>| path_le(p, q)),
            |p: Seq<char>, q: Seq<char>| same_path(p, q),
        ),
{
    let sorted_paths = sort_by(
        paths,
        path_at_most,
        Ghost(|p: Seq<char>, q: Seq<char>| path_le(p, q)),
    );
    remove_repeated(sorted_paths)
}

/// Puts paths in order, those with fewer components first, and takes repeated ones out.
pub fn sort_paths_by_depth(paths: Vec<FsPath>) -> (r: Vec<FsPath>)
    ensures
        path_texts(r@) == deduplicated(
            sorted(path_texts(paths@), |p: Seq<char>, q: Seq<char>| depth_le(p, q)),
            |p: Seq<char>, q: Seq<char>| same_path(p, q),
        ),
{
    let sorted_paths = sort_by(
        paths,
        depth_at_most,
        Ghost(|p: Seq<char>, q: Seq<char>| depth_le(p, q)),
    );
    remove_repeated(sorted_paths)
}

/// Takes out the paths that are the same as the one before.
fn remove_repeated(paths: Vec<FsPath>) -> (r: Vec<FsPath>)
    ensures
        path_texts(r@) == deduplicated(
            path_texts(paths@),
            |p: Seq<char>, q: Seq<char>| same_path(p, q),
        ),
{
    let ghost all = path_texts(paths@);
    let ghost same = |p: Seq<char>, q: Seq<char>| same_path(p, q);
    let mut out: Vec<FsPath> = Vec::new();
    let mut i: usize = 0;
    assert(path_texts(out@) =~= deduplicated(all.take(0), same));
    while i < paths.len()
        invariant
            i <= paths@.len(),
            all == path_texts(paths@),
            same == (|p: Seq<char>, q: Seq<char>| same_path(p, q)),
            path_texts(out@) == deduplicated(all.take(i as int), same),
        decreases paths@.len() - i,
    {
        proof {
            let next = all.take(i + 1);
            assert(next.drop_last() =~= all.take(i as int));
            assert(next.last() == paths@[i as int]@);
            if out@.len() > 0 {
                assert(path_texts(out@).last() == out@.last()@);
            }
            assert(path_texts(out@).len() == out@.len());
        }
        let n: usize = out.len();
        if n > 0 && paths[i].same_as(&out[n - 1]) {
        } else {
            let path = paths[i].clone();
            proof {
                lemma_views_push(out@, path);
            }
            out.push(path);
        }
        i += 1;
    }
    assert(all.take(i as int) =~= all);
    out
}

/// What two sequences hold one after the other is what one or the other holds.
pub proof fn lemma_concat_contains<A>(a: Seq<A>, b: Seq<A>)
    ensures
        forall|x: A| #[trigger] (a + b).contains(x) <==> a.contains(x) || b.contains(x),
{
    let s = a + b;
    assert forall|x: A| #[trigger] s.contains(x) <==> a.contains(x) || b.contains(x) by {
        if a.contains(x) {
            let i = choose|i: int| 0 <= i < a.len() && a[i] == x;
            assert(s[i] == x);
        }
        if b.contains(x) {
            let i = choose|i: int| 0 <= i < b.len() && b[i] == x;
            assert(s[a.len() + i] == x);
        }
        if s.contains(x) {
            let i = choose|i: int| 0 <= i < s.len() && s[i] == x;
            if i < a.len() {
                assert(a[i] == x);
            } else {
                assert(b[i - a.len()] == x);
            }
        }
    }
}

/// Sorting neither adds nor takes away.
pub proof fn lemma_sorted_contains<A>(s: Seq<A>, le: spec_fn(A, A) -> bool)
    ensures
        forall|x: A| #[trigger] sorted(s, le).contains(x) <==> s.contains(x),
{
    lemma_sorted(s, le);
    s.to_multiset_ensures();
    sorted(s, le).to_multiset_ensures();
    assert forall|x: A| #[trigger] sorted(s, le).contains(x) <==> s.contains(x) by {
        assert(sorted(s, le).contains(x) <==> sorted(s, le).to_multiset().count(x) > 0);
        assert(s.contains(x) <==> s.to_multiset().count(x) > 0);
    }
}

} // verus!
