//! Which paths texts name, and how paths lie to each other.

use crate::path::{
    after_segment, body, components, first_segment, joined, kept, lead, same_path, within,
};
use crate::text::{first_index, lemma_first_index, lemma_first_index_unique};
use vstd::prelude::*;

verus! {

/// A path is read name by name between its slashes. Nothing between two slashes, and a dot alone, are
/// no names; two dots are one.
pub proof fn lemma_paths_name_by_name(name: Seq<char>, rest: Seq<char>)
    requires
        !name.contains('/'),
    ensures
        body(name + seq!['/'] + rest) == (if name.len() == 0 || name == seq!['.'] {
            Seq::<Seq<char>>::empty()
        } else {
            seq![name]
        }) + body(rest),
        body(name) == (if name.len() == 0 || name == seq!['.'] {
            Seq::<Seq<char>>::empty()
        } else {
            seq![name]
        }),
        body(seq!['.', '.']) == seq![seq!['.', '.']],
{
    let s = name + seq!['/'] + rest;
    let n = name.len() as int;
    assert forall|k: int| 0 <= k < n implies s[k] != '/' by {
        assert(s[k] == name[k]);
    }
    assert(s[n] == '/');
    lemma_first_index_unique(s, '/', n);
    assert(first_segment(s) =~= name);
    assert(after_segment(s) =~= rest);
    assert(body(s) =~= (if name.len() == 0 || name == seq!['.'] {
        Seq::<Seq<char>>::empty()
    } else {
        seq![name]
    }) + body(rest));
    lemma_whole(name);
    let up = seq!['.', '.'];
    assert(!up.contains('/')) by {
        assert(up[0] == '.' && up[1] == '.');
    }
    lemma_whole(up);
    assert(up.len() == 2);
}

proof fn lemma_whole(name: Seq<char>)
    requires
        !name.contains('/'),
    ensures
        body(name) == (if name.len() == 0 || name == seq!['.'] {
            Seq::<Seq<char>>::empty()
        } else {
            seq![name]
        }),
        first_segment(name) == name,
{
    lemma_first_index(name, '/');
    let i = first_index(name, '/') as int;
    if i < name.len() {
        assert(name.contains('/'));
    }
    assert(first_segment(name) =~= name);
    assert(after_segment(name) =~= Seq::<char>::empty());
    assert(body(after_segment(name)) =~= Seq::<Seq<char>>::empty());
    if name.len() > 0 && kept(name) {
        assert(body(name) =~= seq![name]);
    }
}

/// A path that begins with a slash begins at the root; one that begins with a dot alone begins where
/// it is read. Any other begins with its first name.
pub proof fn lemma_where_paths_begin(name: Seq<char>, rest: Seq<char>)
    requires
        !name.contains('/'),
    ensures
        components(seq!['/'] + rest) == seq![seq!['/']] + body(rest),
        components(seq!['.', '/'] + rest) == seq![seq!['.']] + body(rest),
        components(seq!['.']) == seq![seq!['.']],
        name.len() > 0 && name != seq!['.'] ==> components(name + seq!['/'] + rest) == seq![name]
            + body(rest),
        components(Seq::empty()) == Seq::<Seq<char>>::empty(),
{
    let none = Seq::<char>::empty();
    let dot = seq!['.'];
    assert(!dot.contains('/')) by {
        assert(dot[0] == '.');
    }
    lemma_paths_name_by_name(none, rest);
    lemma_paths_name_by_name(dot, rest);
    lemma_paths_name_by_name(name, rest);
    assert(none + seq!['/'] + rest =~= seq!['/'] + rest);
    assert(dot + seq!['/'] + rest =~= seq!['.', '/'] + rest);
    let t = seq!['.', '/'] + rest;
    assert(t[0] == '.' && t[1] == '/');
    lemma_first_index_unique(t, '/', 1);
    assert(first_segment(t) =~= dot);
    lemma_whole(dot);
    assert(components(dot) =~= seq![seq!['.']]);
    let a = seq!['/'] + rest;
    assert(a[0] == '/');
    assert(components(a) =~= seq![seq!['/']] + body(rest));
    assert(components(t) =~= seq![seq!['.']] + body(rest));
    if name.len() > 0 && name != dot {
        let s = name + seq!['/'] + rest;
        let n = name.len() as int;
        assert forall|k: int| 0 <= k < n implies s[k] != '/' by {
            assert(s[k] == name[k]);
        }
        assert(s[n] == '/');
        lemma_first_index_unique(s, '/', n);
        assert(first_segment(s) =~= name);
        assert(s[0] == name[0]);
        assert(name.contains(name[0]));
        assert(lead(s) =~= Seq::<Seq<char>>::empty());
        assert(components(s) =~= seq![name] + body(rest));
    }
    lemma_whole(none);
    assert(none.len() == 0);
    assert(first_segment(none).len() == 0);
    assert(components(none) =~= Seq::<Seq<char>>::empty());
}

/// A path lies within another one if and only if it has the other's names, in their order, before its
/// own; and both are the same if it has no others.
pub proof fn lemma_within_by_names(q: Seq<char>, p: Seq<char>)
    ensures
        within(q, p) <==> components(p).len() <= components(q).len() && forall|i: int|
            0 <= i < components(p).len() ==> #[trigger] components(q)[i] == components(p)[i],
        same_path(q, p) <==> within(q, p) && components(q).len() == components(p).len(),
{
    let (a, b) = (components(q), components(p));
    if b.len() <= a.len() {
        if a.take(b.len() as int) == b {
            assert forall|i: int| 0 <= i < b.len() implies #[trigger] a[i] == b[i] by {
                assert(a.take(b.len() as int)[i] == a[i]);
            }
        }
        if forall|i: int| 0 <= i < b.len() ==> #[trigger] a[i] == b[i] {
            assert(a.take(b.len() as int) =~= b);
        }
        if a.len() == b.len() {
            assert(a.take(b.len() as int) =~= a);
        }
    }
}

/// What is joined to a path stands behind it and a slash, but for a path that begins at the root,
/// which stands for itself.
pub proof fn lemma_joined_behind_a_slash(p: Seq<char>, q: Seq<char>)
    ensures
        q.len() > 0 && q[0] == '/' ==> joined(p, q) == q,
        (q.len() == 0 || q[0] != '/') && p.len() > 0 && p.last() != '/' ==> joined(p, q) == p
            + seq!['/'] + q,
        (q.len() == 0 || q[0] != '/') && p.len() > 0 && p.last() == '/' ==> joined(p, q) == p + q,
        (q.len() == 0 || q[0] != '/') && p.len() == 0 ==> joined(p, q) == q,
{
    if p.len() == 0 {
        assert(p + q =~= q);
    }
}

} // verus!
