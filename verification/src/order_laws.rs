//! What the orders of texts and paths are, and what sorting does.

use crate::order::{
    char_order, component_order, depth_order, inserted, lexicographic, path_order, sorted,
    text_order, Relation,
};
use crate::path::components;
use crate::text::selected;
use vstd::prelude::*;

verus! {

proof fn lemma_first_difference<A>(
    a: Seq<A>,
    b: Seq<A>,
    f: spec_fn(A, A) -> Relation,
    i: int,
)
    requires
        0 <= i <= a.len(),
        i <= b.len(),
        forall|j: int| 0 <= j < i ==> f(#[trigger] a[j], b[j]) == Relation::Same,
        i < a.len() && i < b.len() ==> f(a[i], b[i]) != Relation::Same,
    ensures
        lexicographic(a, b, f) == (if i < a.len() && i < b.len() {
            f(a[i], b[i])
        } else if i < b.len() {
            Relation::Before
        } else if i < a.len() {
            Relation::After
        } else {
            Relation::Same
        }),
    decreases i,
{
    if i > 0 {
        assert(f(a[0], b[0]) == Relation::Same);
        let (x, y) = (a.skip(1), b.skip(1));
        assert forall|j: int| 0 <= j < i - 1 implies f(#[trigger] x[j], y[j]) == Relation::Same by {
            assert(x[j] == a[j + 1]);
            assert(y[j] == b[j + 1]);
        }
        lemma_first_difference(x, y, f, i - 1);
    }
}

/// Texts are ordered as in a dictionary: the first character in which they differ decides, by its
/// code point, and a text comes before whatever continues it.
pub proof fn lemma_texts_as_in_a_dictionary(a: Seq<char>, b: Seq<char>, i: int)
    requires
        0 <= i <= a.len(),
        i <= b.len(),
        a.take(i) == b.take(i),
        i < a.len() && i < b.len() ==> a[i] != b[i],
    ensures
        text_order(a, b) == (if i < a.len() && i < b.len() {
            if (a[i] as u32) < (b[i] as u32) {
                Relation::Before
            } else {
                Relation::After
            }
        } else if i < b.len() {
            Relation::Before
        } else if i < a.len() {
            Relation::After
        } else {
            Relation::Same
        }),
{
    let f = |x: char, y: char| char_order(x, y);
    assert forall|j: int| 0 <= j < i implies f(#[trigger] a[j], b[j]) == Relation::Same by {
        assert(a.take(i)[j] == a[j]);
        assert(b.take(i)[j] == b[j]);
        assert(char_order(a[j], b[j]) == Relation::Same);
    }
    if i < a.len() && i < b.len() {
        assert(char_order(a[i], b[i]) != Relation::Same);
        assert(f(a[i], b[i]) == char_order(a[i], b[i]));
    }
    lemma_first_difference(a, b, f, i);
}

/// Paths are ordered by the first component in which they differ, names as texts; a path comes
/// before whatever lies below it. Where depth counts, the path with fewer components comes first.
pub proof fn lemma_paths_by_component(p: Seq<char>, q: Seq<char>, i: int)
    requires
        0 <= i <= components(p).len(),
        i <= components(q).len(),
        components(p).take(i) == components(q).take(i),
        i < components(p).len() && i < components(q).len() ==> components(p)[i] != components(
            q,
        )[i],
    ensures
        i < components(p).len() && i < components(q).len() && is_plain_name(components(p)[i])
            && is_plain_name(components(q)[i]) ==> path_order(p, q) == text_order(
            components(p)[i],
            components(q)[i],
        ),
        i == components(p).len() && i < components(q).len() ==> path_order(p, q)
            == Relation::Before,
        components(p).len() < components(q).len() ==> depth_order(p, q) == Relation::Before,
        components(p).len() > components(q).len() ==> depth_order(p, q) == Relation::After,
        components(p).len() == components(q).len() ==> depth_order(p, q) == path_order(p, q),
{
    let f = |x: Seq<char>, y: Seq<char>| component_order(x, y);
    let (a, b) = (components(p), components(q));
    crate::order::lemma_component_order_total();
    assert forall|j: int| 0 <= j < i implies f(#[trigger] a[j], b[j]) == Relation::Same by {
        assert(a.take(i)[j] == b.take(i)[j]);
        assert(f(a[j], a[j]) == Relation::Same);
    }
    if i < a.len() && i < b.len() {
        assert(f(a[i], b[i]) != Relation::Same);
    }
    lemma_first_difference(a, b, f, i);
}

/// Whether a component is a name, neither the root nor `.` nor `..`.
pub open spec fn is_plain_name(c: Seq<char>) -> bool {
    c != seq!['/'] && c != seq!['.'] && c != seq!['.', '.']
}

proof fn lemma_selected_pushed<A>(s: Seq<A>, x: A, keep: spec_fn(A) -> bool)
    ensures
        selected(s.push(x), keep) == (if keep(x) {
            selected(s, keep).push(x)
        } else {
            selected(s, keep)
        }),
{
    assert(s.push(x).drop_last() =~= s);
    assert(s.push(x).last() == x);
}

proof fn lemma_inserted_keeps_ties<A>(
    s: Seq<A>,
    x: A,
    le: spec_fn(A, A) -> bool,
    tie: spec_fn(A) -> bool,
)
    requires
        forall|a: A, b: A| #[trigger] tie(a) && #[trigger] tie(b) ==> le(a, b),
    ensures
        selected(inserted(s, x, le), tie) == selected(s.push(x), tie),
    decreases s.len(),
{
    assert(s.push(x).drop_last() =~= s);
    if s.len() > 0 && !le(s.last(), x) {
        let head = s.drop_last();
        lemma_inserted_keeps_ties(head, x, le, tie);
        let r = inserted(head, x, le);
        assert(inserted(s, x, le) == r.push(s.last()));
        assert(r.push(s.last()).drop_last() =~= r);
        assert(r.push(s.last()).last() == s.last());
        assert(head.push(x).drop_last() =~= head);
        assert(head.push(x).last() == x);
        assert(s.push(x).last() == x);
        lemma_selected_pushed(head, x, tie);
        lemma_selected_pushed(s, x, tie);
        lemma_selected_pushed(r, s.last(), tie);
        lemma_selected_pushed(head, s.last(), tie);
        assert(head.push(s.last()) =~= s);
        if tie(s.last()) {
            assert(!tie(x)) by {
                if tie(x) {
                    assert(le(s.last(), x));
                }
            }
        }
    }
}

/// Sorting leaves values that may stand either way as they stood.
pub proof fn lemma_ties_keep_their_order<A>(
    s: Seq<A>,
    le: spec_fn(A, A) -> bool,
    tie: spec_fn(A) -> bool,
)
    requires
        forall|a: A, b: A| #[trigger] tie(a) && #[trigger] tie(b) ==> le(a, b),
    ensures
        selected(sorted(s, le), tie) == selected(s, tie),
    decreases s.len(),
{
    if s.len() > 0 {
        let head = s.drop_last();
        lemma_ties_keep_their_order(head, le, tie);
        let before = sorted(head, le);
        lemma_inserted_keeps_ties(before, s.last(), le, tie);
        assert(before.push(s.last()).drop_last() =~= before);
    }
}

} // verus!
