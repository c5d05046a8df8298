//! Unix paths held as text.
//!
//! A path is read as its components: the root, if the text begins with a slash; a leading `.`;
//! and the segments between slashes, without the empty ones and the other `.` segments. Two texts
//! with the same components name the same path.

use crate::text::{
    chars_of, find_from, first_index, lemma_first_index, lemma_first_index_unique,
    lemma_texts_push, text_eq, text_of, texts, views,
};
use vstd::prelude::*;

verus! {

/// A path, absolute or relative.
#[derive(Debug)]
pub struct FsPath {
    pub text: String,
}

impl View for FsPath {
    type V = Seq<char>;

    open spec fn view(&self) -> Seq<char> {
        self.text@
    }
}

/// The texts that a sequence of paths holds.
pub open spec fn path_texts(v: Seq<FsPath>) -> Seq<Seq<char>> {
    views(v)
}

pub open spec fn is_absolute(p: Seq<char>) -> bool {
    p.len() > 0 && p[0] == '/'
}

/// What stands before the first slash.
pub open spec fn first_segment(p: Seq<char>) -> Seq<char> {
    p.take(first_index(p, '/') as int)
}

/// What stands after the first slash.
pub open spec fn after_segment(p: Seq<char>) -> Seq<char> {
    if first_index(p, '/') < p.len() {
        p.skip(first_index(p, '/') as int + 1)
    } else {
        Seq::empty()
    }
}

/// Whether a segment is a component of its own.
pub open spec fn kept(segment: Seq<char>) -> bool {
    segment.len() > 0 && segment != seq!['.']
}

/// The components after the root or the leading `.`.
pub open spec fn body(p: Seq<char>) -> Seq<Seq<char>>
    decreases p.len(),
{
    if p.len() == 0 {
        Seq::empty()
    } else if kept(first_segment(p)) {
        seq![first_segment(p)] + body(after_segment(p))
    } else {
        body(after_segment(p))
    }
}

/// The root or the leading `.`, where there is one.
pub open spec fn lead(p: Seq<char>) -> Seq<Seq<char>> {
    if is_absolute(p) {
        seq![seq!['/']]
    } else if first_segment(p) == seq!['.'] {
        seq![seq!['.']]
    } else {
        Seq::empty()
    }
}

/// The components of a path.
pub open spec fn components(p: Seq<char>) -> Seq<Seq<char>> {
    lead(p) + body(p)
}

/// Whether both texts name the same path.
pub open spec fn same_path(p: Seq<char>, q: Seq<char>) -> bool {
    components(p) == components(q)
}

/// Whether `q` is `p` or lies below it.
pub open spec fn within(q: Seq<char>, p: Seq<char>) -> bool {
    let (a, b) = (components(q), components(p));
    b.len() <= a.len() && a.take(b.len() as int) == b
}

/// `q` seen from `p`: an absolute `q` stands for itself.
pub open spec fn joined(p: Seq<char>, q: Seq<char>) -> Seq<char> {
    if is_absolute(q) {
        q
    } else if p.len() > 0 && p.last() != '/' {
        p + seq!['/'] + q
    } else {
        p + q
    }
}

/// The position of the last slash, or -1.
pub open spec fn last_slash(p: Seq<char>) -> int
    decreases p.len(),
{
    if p.len() == 0 {
        -1
    } else if p.last() == '/' {
        p.len() - 1
    } else {
        last_slash(p.drop_last())
    }
}

/// `p` without the segments at its front that are no components.
pub open spec fn trim_front(p: Seq<char>) -> Seq<char>
    decreases p.len(),
{
    if p.len() > 0 && !kept(first_segment(p)) {
        trim_front(after_segment(p))
    } else {
        p
    }
}

/// `p` without the segments at its end that are no components.
pub open spec fn trim_back(p: Seq<char>) -> Seq<char>
    decreases p.len(),
{
    proof {
        lemma_last_slash(p);
    }
    let i = last_slash(p);
    if p.len() == 0 || kept(p.skip(i + 1)) {
        p
    } else if i < 0 {
        Seq::empty()
    } else {
        trim_back(p.take(i))
    }
}

/// `p` without its first `n` components, where it has no root and no leading `.`.
pub open spec fn body_after(p: Seq<char>, n: nat) -> Seq<char>
    decreases n,
{
    if n == 0 {
        trim_front(p)
    } else {
        body_after(after_segment(trim_front(p)), (n - 1) as nat)
    }
}

/// The text of `p` without its first `n` components.
pub open spec fn path_after(p: Seq<char>, n: nat) -> Seq<char> {
    let l = lead(p).len() as int;
    if n == 0 {
        p.take(l) + trim_back(p.skip(l))
    } else {
        trim_back(body_after(p.skip(l), (n - l) as nat))
    }
}

/// The text of `p` without its last component, where that is not the root.
pub open spec fn parent_of(p: Seq<char>) -> Option<Seq<char>> {
    let l = lead(p).len() as int;
    let b = trim_back(p.skip(l));
    if body(p).len() > 0 {
        let i = last_slash(b);
        Some(p.take(l) + trim_back(b.take(if i < 0 { 0 } else { i })))
    } else if lead(p) == seq![seq!['.']] {
        Some(Seq::empty())
    } else {
        None
    }
}

/// The last component, where it is a name.
pub open spec fn file_name_of(p: Seq<char>) -> Option<Seq<char>> {
    if body(p).len() > 0 && body(p).last() != seq!['.', '.'] {
        Some(body(p).last())
    } else {
        None
    }
}

pub proof fn lemma_last_slash(p: Seq<char>)
    ensures
        -1 <= last_slash(p) < p.len(),
        last_slash(p) >= 0 ==> p[last_slash(p)] == '/',
        forall|j: int| last_slash(p) < j < p.len() ==> p[j] != '/',
    decreases p.len(),
{
    if p.len() > 0 && p.last() != '/' {
        lemma_last_slash(p.drop_last());
        assert forall|j: int| last_slash(p) < j < p.len() implies p[j] != '/' by {
            if j < p.len() - 1 {
                assert(p[j] == p.drop_last()[j]);
            }
        }
    }
}

/// A text without slashes is its only segment.
proof fn lemma_single_segment(p: Seq<char>)
    requires
        forall|j: int| 0 <= j < p.len() ==> p[j] != '/',
    ensures
        first_segment(p) == p,
        after_segment(p).len() == 0,
        body(p) == (if kept(p) { seq![p] } else { Seq::<Seq<char>>::empty() }),
{
    lemma_first_index_unique(p, '/', p.len() as int);
    assert(first_segment(p) =~= p);
    assert(body(after_segment(p)) =~= Seq::<Seq<char>>::empty());
    assert(seq![p] + Seq::<Seq<char>>::empty() =~= seq![p]);
}

/// The components on both sides of a slash are the components of the whole.
pub proof fn lemma_body_concat(a: Seq<char>, b: Seq<char>)
    ensures
        body(a + seq!['/'] + b) == body(a) + body(b),
    decreases a.len(),
{
    let p = a + seq!['/'] + b;
    lemma_first_index(a, '/');
    let i = first_index(a, '/') as int;
    assert forall|j: int| 0 <= j < i implies p[j] != '/' by {
        assert(p[j] == a[j]);
    }
    lemma_first_index_unique(p, '/', i);
    assert(first_segment(p) =~= first_segment(a));
    if a.len() == 0 {
        assert(after_segment(p) =~= b);
        assert(body(a) + body(b) =~= body(b));
    } else if i < a.len() {
        lemma_body_concat(after_segment(a), b);
        assert(after_segment(p) =~= after_segment(a) + seq!['/'] + b);
        assert(body(p) =~= body(a) + body(b));
    } else {
        assert(after_segment(p) =~= b);
        assert(body(after_segment(a)) =~= Seq::<Seq<char>>::empty());
        assert(body(p) =~= body(a) + body(b));
    }
}

proof fn lemma_trim_front(p: Seq<char>)
    ensures
        body(trim_front(p)) == body(p),
        trim_front(p).len() <= p.len(),
        trim_front(p).len() > 0 ==> kept(first_segment(trim_front(p))),
    decreases p.len(),
{
    if p.len() > 0 && !kept(first_segment(p)) {
        lemma_trim_front(after_segment(p));
    }
}

proof fn lemma_trim_back(p: Seq<char>)
    ensures
        body(trim_back(p)) == body(p),
        trim_back(p).len() <= p.len(),
        trim_back(p) == p.take(trim_back(p).len() as int),
        trim_back(p).len() < p.len() && trim_back(p).len() > 0 ==> p[trim_back(p).len() as int]
            == '/',
        trim_back(p).len() > 0 ==> kept(trim_back(p).skip(last_slash(trim_back(p)) + 1)),
    decreases p.len(),
{
    lemma_last_slash(p);
    let i = last_slash(p);
    let seg = p.skip(i + 1);
    if p.len() == 0 {
    } else if kept(seg) {
        assert(p.take(p.len() as int) =~= p);
    } else if i < 0 {
        assert(seg =~= p);
        lemma_single_segment(p);
        assert(p.take(0) =~= Seq::empty());
    } else {
        let a = p.take(i);
        lemma_trim_back(a);
        assert(p =~= a + seq!['/'] + seg);
        lemma_body_concat(a, seg);
        assert forall|j: int| 0 <= j < seg.len() implies seg[j] != '/' by {
            assert(seg[j] == p[i + 1 + j]);
        }
        lemma_single_segment(seg);
        assert(body(a) + body(seg) =~= body(a));
        let m = trim_back(a).len() as int;
        assert(a.take(m) =~= p.take(m));
        if m > 0 && m < a.len() {
            assert(a[m] == p[m]);
        }
    }
}

proof fn lemma_body_after(p: Seq<char>, n: nat)
    requires
        n <= body(p).len(),
    ensures
        body(body_after(p, n)) == body(p).skip(n as int),
        body_after(p, n).len() > 0 ==> kept(first_segment(body_after(p, n))),
    decreases n,
{
    lemma_trim_front(p);
    if n == 0 {
        assert(body(p).skip(0) =~= body(p));
    } else {
        let q = trim_front(p);
        assert(body(q) =~= seq![first_segment(q)] + body(after_segment(q)));
        lemma_body_after(after_segment(q), (n - 1) as nat);
        assert(body(p).skip(n as int) =~= body(after_segment(q)).skip(n - 1));
    }
}

/// The text after the root or the leading `.` has the rest of the components.
proof fn lemma_body_of_rest(p: Seq<char>)
    ensures
        body(p.skip(lead(p).len() as int)) == body(p),
        lead(p).len() == 0 && p.len() > 0 ==> kept(first_segment(p)),
        lead(p).len() <= p.len(),
        lead(p) == seq![seq!['.']] ==> p[0] == '.' && (p.len() == 1 || p[1] == '/'),
{
    lemma_first_index(p, '/');
    let i = first_index(p, '/') as int;
    if is_absolute(p) {
        assert(i == 0);
        assert(first_segment(p).len() == 0);
        assert(after_segment(p) =~= p.skip(1));
        assert(lead(p)[0][0] == '/');
        assert(seq![seq!['.']][0][0] == '.');
    } else if first_segment(p) == seq!['.'] {
        assert(first_segment(p).len() == 1);
        assert(i == 1);
        assert(p[0] == first_segment(p)[0]);
        if p.len() == 1 {
            assert(p.skip(1) =~= Seq::empty());
            assert(after_segment(p) =~= Seq::empty());
        } else {
            let q = p.skip(1);
            lemma_first_index_unique(q, '/', 0);
            assert(first_segment(q).len() == 0);
            assert(after_segment(q) =~= p.skip(2));
            assert(after_segment(p) =~= p.skip(2));
        }
    } else {
        assert(p.skip(0) =~= p);
    }
}

/// A text that begins with a component has no root and no leading `.`, nor has its trimmed form.
proof fn lemma_no_lead(p: Seq<char>)
    requires
        p.len() > 0 ==> kept(first_segment(p)),
    ensures
        lead(p).len() == 0,
        lead(trim_back(p)).len() == 0,
{
    lemma_first_index(p, '/');
    lemma_trim_back(p);
    let t = trim_back(p);
    if p.len() > 0 {
        assert(first_index(p, '/') > 0);
    }
    if t.len() > 0 {
        assert(t[0] == p[0]);
        lemma_first_index(t, '/');
        if first_segment(t) == seq!['.'] {
            assert(first_segment(t).len() == 1);
            assert(t[0] == first_segment(t)[0]);
            if t.len() > 1 {
                assert(t[1] == p[1]);
            }
            lemma_first_index_unique(p, '/', 1);
            assert(first_segment(p) =~= seq!['.']);
        }
    } else {
        assert(first_segment(t) =~= Seq::<char>::empty());
    }
    if p.len() == 0 {
        assert(first_segment(p) =~= Seq::<char>::empty());
    }
}

/// Putting a text that starts with a slash, or nothing, after the root or the leading `.` of a
/// path.
proof fn lemma_lead_kept(p: Seq<char>, t: Seq<char>)
    requires
        lead(p).len() == 1,
        lead(p) == seq![seq!['.']] ==> t.len() == 0 || t[0] == '/',
    ensures
        components(p.take(1) + t) == lead(p) + body(t),
{
    lemma_body_of_rest(p);
    let r = p.take(1) + t;
    lemma_first_index(r, '/');
    if is_absolute(p) {
        assert(r[0] == '/');
        assert(first_index(r, '/') == 0);
        assert(first_segment(r).len() == 0);
        assert(after_segment(r) =~= t);
        assert(components(r) =~= lead(p) + body(t));
    } else {
        assert(lead(p) == seq![seq!['.']]);
        assert(r[0] == '.');
        assert(t.len() > 0 ==> r[1] == t[0]);
        lemma_first_index_unique(r, '/', 1);
        assert(first_segment(r) =~= seq!['.']);
        lemma_body_of_rest(r);
        assert(r.skip(1) =~= t);
    }
}

/// `path_after` drops exactly the first `n` components.
pub proof fn lemma_path_after(p: Seq<char>, n: nat)
    requires
        n <= components(p).len(),
    ensures
        components(path_after(p, n)) == components(p).skip(n as int),
{
    lemma_body_of_rest(p);
    let l = lead(p).len() as int;
    let b = p.skip(l);
    lemma_trim_back(b);
    let t = trim_back(b);
    assert(components(p).skip(0) =~= components(p));
    if n == 0 {
        if l == 1 {
            if t.len() > 0 {
                assert(t[0] == b[0]);
                assert(b[0] == p[1]);
            }
            lemma_lead_kept(p, t);
        } else {
            assert(b =~= p);
            assert(p.take(0) + t =~= t);
            lemma_no_lead(p);
            assert(lead(t) =~= lead(p));
        }
    } else {
        let q = body_after(b, (n - l) as nat);
        lemma_body_after(b, (n - l) as nat);
        lemma_no_lead(q);
        lemma_trim_back(q);
        assert(components(trim_back(q)) =~= body(q));
        assert(components(p).skip(n as int) =~= body(p).skip(n - l));
    }
}

/// The parent of a path has its components but the last.
pub proof fn lemma_parent(p: Seq<char>)
    ensures
        parent_of(p) is Some <==> body(p).len() > 0 || lead(p) == seq![seq!['.']],
        parent_of(p) matches Some(q) ==> components(q) == components(p).drop_last(),
{
    lemma_body_of_rest(p);
    let l = lead(p).len() as int;
    let b = p.skip(l);
    lemma_trim_back(b);
    let t = trim_back(b);
    lemma_last_slash(t);
    if body(p).len() > 0 {
        assert(t.len() > 0);
        let i = last_slash(t);
        let seg = t.skip(i + 1);
        assert forall|j: int| 0 <= j < seg.len() implies seg[j] != '/' by {
            assert(seg[j] == t[i + 1 + j]);
        }
        lemma_single_segment(seg);
        let c = t.take(if i < 0 { 0 } else { i });
        if i < 0 {
            assert(seg =~= t);
            assert(body(c) =~= body(p).drop_last());
        } else {
            assert(t =~= c + seq!['/'] + seg);
            lemma_body_concat(c, seg);
            assert(body(c) =~= body(p).drop_last());
        }
        lemma_trim_back(c);
        let d = trim_back(c);
        assert(components(p).drop_last() =~= lead(p) + body(p).drop_last());
        if l == 1 {
            if d.len() > 0 {
                assert(d[0] == c[0]);
                assert(c[0] == t[0]);
                assert(t[0] == b[0]);
                assert(b[0] == p[1]);
            }
            lemma_lead_kept(p, d);
        } else {
            assert(b =~= p);
            assert(p.take(0) + d =~= d);
            lemma_no_lead(p);
            // The first component of `p` is that of `c`, unless nothing is left.
            if c.len() > 0 {
                lemma_first_index(p, '/');
                lemma_first_index(c, '/');
                assert(c[0] == p[0]);
                if first_segment(c) == seq!['.'] {
                    assert(first_segment(c).len() == 1);
                    assert(c[0] == first_segment(c)[0]);
                    if c.len() > 1 {
                        assert(c[1] == p[1]);
                    } else {
                        assert(i == 1);
                        assert(t[1] == p[1]);
                    }
                    lemma_first_index_unique(p, '/', 1);
                    assert(first_segment(p) =~= seq!['.']);
                }
                assert(kept(first_segment(c)));
            }
            lemma_no_lead(c);
            assert(lead(d) =~= lead(p));
        }
    } else if lead(p) == seq![seq!['.']] {
        assert(components(Seq::<char>::empty()) =~= Seq::<Seq<char>>::empty()) by {
            assert(first_segment(Seq::<char>::empty()) =~= Seq::<char>::empty());
        }
        assert(components(p).drop_last() =~= Seq::<Seq<char>>::empty());
    }
}

/// Joining a relative path puts its components after those of the base.
pub proof fn lemma_joined(p: Seq<char>, q: Seq<char>)
    requires
        !is_absolute(q),
        p.len() > 0,
    ensures
        components(joined(p, q)) == components(p) + body(q),
{
    let a = if p.last() == '/' { p.drop_last() } else { p };
    let r = joined(p, q);
    assert(r =~= a + seq!['/'] + q);
    lemma_body_concat(a, q);
    lemma_first_index(p, '/');
    let i = first_index(p, '/') as int;
    assert(r[0] == p[0]);
    assert forall|j: int| 0 <= j < i implies r[j] != '/' by {
        assert(r[j] == p[j]);
    }
    if p.last() == '/' {
        lemma_body_concat(a, Seq::empty());
        assert(p =~= a + seq!['/'] + Seq::<char>::empty());
        assert(body(p) =~= body(a));
        if i == p.len() {
            assert(p[p.len() - 1] != '/');
        }
        assert(r[i] == p[i]);
    }
    lemma_first_index_unique(r, '/', i);
    assert(first_segment(r) =~= first_segment(p));
    assert(components(r) =~= components(p) + body(q));
}

/// Every path lies within itself, and lying within is transitive.
pub proof fn lemma_within_order(p: Seq<char>, q: Seq<char>, r: Seq<char>)
    ensures
        within(p, p),
        within(p, q) && within(q, r) ==> within(p, r),
        within(p, q) && within(q, p) ==> same_path(p, q),
{
    let (a, b, c) = (components(p), components(q), components(r));
    assert(a.take(a.len() as int) =~= a);
    if within(p, q) && within(q, r) {
        assert(a.take(c.len() as int) =~= b.take(c.len() as int));
    }
    if within(p, q) && within(q, p) {
        assert(b.take(a.len() as int) =~= b);
    }
}

/// What is joined to a path lies within it.
pub proof fn lemma_joined_within(p: Seq<char>, q: Seq<char>)
    requires
        !is_absolute(q),
        p.len() > 0,
    ensures
        within(joined(p, q), p),
{
    lemma_joined(p, q);
    assert((components(p) + body(q)).take(components(p).len() as int) =~= components(p));
}

/// A name is its own only component.
pub proof fn lemma_name(name: Seq<char>)
    requires
        name.len() > 0,
        !name.contains('/'),
        name != seq!['.'],
    ensures
        !is_absolute(name),
        body(name) == seq![name],
        components(name) == seq![name],
{
    assert forall|j: int| 0 <= j < name.len() implies name[j] != '/' by {
        assert(name.contains(name[j]));
    }
    lemma_first_index_unique(name, '/', name.len() as int);
    assert(first_segment(name) =~= name);
    assert(after_segment(name) =~= Seq::<char>::empty());
    assert(body(after_segment(name)) =~= Seq::<Seq<char>>::empty());
    assert(body(name) =~= seq![name]);
    assert(components(name) =~= seq![name]);
}

/// What is joined to any path lies within it.
pub proof fn lemma_joined_inside(p: Seq<char>, q: Seq<char>)
    requires
        !is_absolute(q),
    ensures
        within(joined(p, q), p),
{
    if p.len() > 0 {
        lemma_joined_within(p, q);
    } else {
        lemma_first_index_unique(p, '/', 0);
        assert(first_segment(p) =~= Seq::<char>::empty());
        assert(first_segment(p).len() != seq!['.'].len());
        assert(components(p) =~= Seq::<Seq<char>>::empty());
        assert(components(joined(p, q)).take(0) =~= components(p));
    }
}

/// A path within another is the other joined with what remains of it.
pub proof fn lemma_strip_join(p: Seq<char>, q: Seq<char>)
    requires
        within(q, p),
        components(p).len() > 0,
    ensures
        same_path(joined(p, path_after(q, components(p).len())), q),
{
    let n = components(p).len();
    let r = path_after(q, n);
    lemma_path_after(q, n);
    lemma_body_of_rest(q);
    assert(n >= lead(q).len());
    lemma_body_after(q.skip(lead(q).len() as int), (n - lead(q).len()) as nat);
    lemma_no_lead(body_after(q.skip(lead(q).len() as int), (n - lead(q).len()) as nat));
    assert(lead(r).len() == 0);
    assert(components(r) =~= body(r));
    if p.len() == 0 {
        assert(first_segment(p) =~= Seq::<char>::empty());
        assert(components(p) =~= Seq::<Seq<char>>::empty());
    }
    lemma_joined(p, r);
    assert(components(q) =~= components(q).take(n as int) + components(q).skip(n as int));
}

/// No component of a relative path is the root.
pub proof fn lemma_relative_components(p: Seq<char>)
    requires
        !is_absolute(p),
    ensures
        forall|i: int| 0 <= i < components(p).len() ==> #[trigger] components(p)[i] != "/"@,
{
    reveal_strlit("/");
    lemma_body_names(p);
    assert forall|i: int| 0 <= i < components(p).len() implies #[trigger] components(p)[i]
        != "/"@ by {
        let l = lead(p).len() as int;
        if i < l {
            assert(components(p)[i] == seq!['.']);
            assert(components(p)[i][0] == '.');
        } else {
            let c = body(p)[i - l];
            assert(!c.contains('/'));
            if c == "/"@ {
                assert(c[0] == '/');
                assert(c.contains('/'));
            }
        }
    }
}

/// No name holds a slash.
pub proof fn lemma_body_names(p: Seq<char>)
    ensures
        forall|i: int|
            0 <= i < body(p).len() ==> !(#[trigger] body(p)[i]).contains(
                '/',
            ),
    decreases p.len(),
{
    if p.len() > 0 {
        let rest = after_segment(p);
        lemma_body_names(rest);
        lemma_first_index(p, '/');
        let first = first_segment(p);
        assert(!first.contains('/')) by {
            if first.contains('/') {
                let j = choose|j: int| 0 <= j < first.len() && first[j] == '/';
                assert(p[j] == '/');
            }
        }
        assert forall|i: int| 0 <= i < body(p).len() implies !(
        #[trigger] body(p)[i]).contains('/') by {
            if !kept(first) {
                assert(body(p)[i] == body(rest)[i]);
            } else if i > 0 {
                assert(body(p)[i] == body(rest)[i - 1]);
            } else {
                assert(body(p)[i] == first);
            }
        }
    }
}

/// Every component after the root or the leading `.` is one of its own.
pub proof fn lemma_body_kept(p: Seq<char>)
    ensures
        forall|i: int| 0 <= i < body(p).len() ==> kept(#[trigger] body(p)[i]),
    decreases p.len(),
{
    if p.len() > 0 {
        let rest = after_segment(p);
        lemma_first_index(p, '/');
        lemma_body_kept(rest);
        let first = first_segment(p);
        assert forall|i: int| 0 <= i < body(p).len() implies kept(
            #[trigger] body(p)[i],
        ) by {
            if !kept(first) {
                assert(body(p)[i] == body(rest)[i]);
            } else if i > 0 {
                assert(body(p)[i] == body(rest)[i - 1]);
            } else {
                assert(body(p)[i] == first);
            }
        }
    }
}

/// Whether a component is a name.
pub open spec fn is_name(part: Seq<char>) -> bool {
    part != "/"@ && part != "."@ && part != ".."@
}

/// Whether all components are names.
pub fn all_names(parts: &[String]) -> (r: bool)
    ensures
        r == (forall|i: int| 0 <= i < parts@.len() ==> is_name(#[trigger] texts(parts@)[i])),
{
    let ghost all = texts(parts@);
    let mut i: usize = 0;
    while i < parts.len()
        invariant
            i <= parts@.len(),
            all == texts(parts@),
            forall|j: int| 0 <= j < i ==> is_name(#[trigger] all[j]),
        decreases parts@.len() - i,
    {
        assert(all[i as int] == parts@[i as int]@);
        if text_eq(&parts[i], "/") || text_eq(&parts[i], ".") || text_eq(&parts[i], "..") {
            assert(!is_name(all[i as int]));
            return false;
        }
        i += 1;
    }
    true
}

/// Whether `chars[from..to]` is a component of its own.
fn segment_is_kept(chars: &[char], from: usize, to: usize) -> (r: bool)
    requires
        from <= to <= chars@.len(),
    ensures
        r == kept(chars@.subrange(from as int, to as int)),
{
    let ghost seg = chars@.subrange(from as int, to as int);
    if to == from {
        false
    } else if to - from == 1 && chars[from] == '.' {
        assert(seg =~= seq!['.']);
        false
    } else {
        assert(seg != seq!['.']) by {
            if seg == seq!['.'] {
                assert(seg.len() == 1);
                assert(seg[0] == '.');
            }
        }
        true
    }
}

/// Where the path continues after the segments from `from` on that are no components.
fn trim_front_at(chars: &[char], from: usize) -> (r: usize)
    requires
        from <= chars@.len(),
    ensures
        from <= r <= chars@.len(),
        chars@.skip(r as int) == trim_front(chars@.skip(from as int)),
{
    let mut at: usize = from;
    while at < chars.len()
        invariant
            from <= at <= chars@.len(),
            trim_front(chars@.skip(at as int)) == trim_front(chars@.skip(from as int)),
        ensures
            from <= at <= chars@.len(),
            chars@.skip(at as int) == trim_front(chars@.skip(from as int)),
        decreases chars@.len() - at,
    {
        let ghost p = chars@.skip(at as int);
        let end: usize = find_from(chars, '/', at);
        assert(first_segment(p) =~= chars@.subrange(at as int, end as int));
        if segment_is_kept(chars, at, end) {
            break;
        }
        if end < chars.len() {
            assert(after_segment(p) =~= chars@.skip(end + 1));
            at = end + 1;
        } else {
            assert(after_segment(p) =~= chars@.skip(end as int));
            at = end;
        }
    }
    at
}

/// Where the path `chars[from..to]` ends without the segments at its end that are no components.
fn trim_back_at(chars: &[char], from: usize, to: usize) -> (r: usize)
    requires
        from <= to <= chars@.len(),
    ensures
        from <= r <= to,
        chars@.subrange(from as int, r as int) == trim_back(
            chars@.subrange(from as int, to as int),
        ),
{
    let mut end: usize = to;
    while end > from
        invariant
            from <= end <= to <= chars@.len(),
            trim_back(chars@.subrange(from as int, end as int)) == trim_back(
                chars@.subrange(from as int, to as int),
            ),
        ensures
            from <= end <= to,
            chars@.subrange(from as int, end as int) == trim_back(
                chars@.subrange(from as int, to as int),
            ),
        decreases end,
    {
        let ghost p = chars@.subrange(from as int, end as int);
        let start: usize = segment_start(chars, from, end);
        assert(p.skip(last_slash(p) + 1) =~= chars@.subrange(start as int, end as int));
        if segment_is_kept(chars, start, end) {
            break;
        }
        if start == from {
            assert(chars@.subrange(from as int, from as int) =~= Seq::<char>::empty());
            end = from;
        } else {
            assert(p.take(last_slash(p)) =~= chars@.subrange(from as int, start - 1));
            end = start - 1;
        }
    }
    end
}

/// Where the last segment of `chars[from..end]` begins.
fn segment_start(chars: &[char], from: usize, end: usize) -> (r: usize)
    requires
        from <= end <= chars@.len(),
    ensures
        from <= r <= end,
        r == from + last_slash(chars@.subrange(from as int, end as int)) + 1,
{
    let ghost p = chars@.subrange(from as int, end as int);
    let mut start: usize = end;
    assert(p.take(p.len() as int) =~= p);
    while start > from && chars[start - 1] != '/'
        invariant
            from <= start <= end <= chars@.len(),
            p == chars@.subrange(from as int, end as int),
            last_slash(p) == last_slash(p.take(start - from)),
        decreases start,
    {
        assert(p.take(start - from).last() == chars@[start - 1]);
        assert(p.take(start - from).drop_last() =~= p.take(start - from - 1));
        start -= 1;
    }
    if start > from {
        assert(p.take(start - from).last() == chars@[start - 1]);
    }
    start
}

/// The components after the root or the leading `.`.
fn body_texts(chars: &[char], from: usize) -> (r: Vec<String>)
    requires
        from <= chars@.len(),
    ensures
        texts(r@) == body(chars@.skip(from as int)),
{
    let mut out: Vec<String> = Vec::new();
    let mut at: usize = from;
    assert(texts(out@) + body(chars@.skip(at as int)) =~= body(chars@.skip(from as int)));
    while at < chars.len()
        invariant
            from <= at <= chars@.len(),
            texts(out@) + body(chars@.skip(at as int)) == body(chars@.skip(from as int)),
        decreases chars@.len() - at,
    {
        let ghost p = chars@.skip(at as int);
        let end: usize = find_from(chars, '/', at);
        let next: usize = if end < chars.len() {
            end + 1
        } else {
            end
        };
        assert(first_segment(p) =~= chars@.subrange(at as int, end as int));
        assert(after_segment(p) =~= chars@.skip(next as int));
        if segment_is_kept(chars, at, end) {
            let segment = text_of(chars, at, end);
            let ghost before = out@;
            proof {
                lemma_texts_push(before, segment);
                assert(texts(before.push(segment)) + body(chars@.skip(next as int)) =~= texts(
                    before,
                ) + body(p));
            }
            out.push(segment);
        }
        at = next;
    }
    assert(texts(out@) + body(chars@.skip(at as int)) =~= texts(out@));
    out
}

/// Whether two lists of texts agree in their first `n` places.
fn agree(a: &[String], b: &[String], n: usize) -> (r: bool)
    requires
        n <= a@.len(),
        n <= b@.len(),
    ensures
        r == (texts(a@).take(n as int) == texts(b@).take(n as int)),
{
    let mut i: usize = 0;
    while i < n
        invariant
            i <= n <= a@.len(),
            n <= b@.len(),
            forall|j: int| 0 <= j < i ==> a@[j]@ == b@[j]@,
        decreases n - i,
    {
        if !text_eq(&a[i], &b[i]) {
            assert(texts(a@).take(n as int)[i as int] != texts(b@).take(n as int)[i as int]);
            return false;
        }
        i += 1;
    }
    assert(texts(a@).take(n as int) =~= texts(b@).take(n as int));
    true
}

impl Clone for FsPath {
    fn clone(&self) -> (r: Self)
        ensures
            r@ == self@,
    {
        FsPath { text: self.text.clone() }
    }
}

impl PartialEq for FsPath {
    fn eq(&self, other: &Self) -> (r: bool) {
        self.same_as(other)
    }
}

impl vstd::std_specs::cmp::PartialEqSpecImpl for FsPath {
    open spec fn obeys_eq_spec() -> bool {
        true
    }

    open spec fn eq_spec(&self, other: &Self) -> bool {
        same_path(self@, other@)
    }
}

impl Eq for FsPath {

}

impl FsPath {
    pub fn new(text: &str) -> (r: FsPath)
        ensures
            r@ == text@,
    {
        FsPath { text: text.to_owned() }
    }

    pub fn as_str(&self) -> (r: &str)
        ensures
            r@ == self@,
    {
        self.text.as_str()
    }

    pub fn is_absolute(&self) -> (r: bool)
        ensures
            r == is_absolute(self@),
    {
        self.text.as_str().unicode_len() > 0 && self.text.as_str().get_char(0) == '/'
    }

    /// The root, written `/`; a leading `.`; and the names, `..` among them.
    pub fn components(&self) -> (r: Vec<String>)
        ensures
            texts(r@) == components(self@),
    {
        let chars = chars_of(&self.text);
        let mut out: Vec<String> = Vec::new();
        let ghost p = self@;
        proof {
            lemma_body_of_rest(p);
            lemma_first_index(p, '/');
        }
        let mut rest = body_texts(chars.as_slice(), 0);
        assert(chars@.skip(0) =~= p);
        if chars.len() > 0 && chars[0] == '/' {
            let root = text_of(chars.as_slice(), 0, 1);
            assert(root@ =~= seq!['/']);
            out.push(root);
            assert(texts(out@) =~= lead(p));
        } else {
            let end: usize = find_from(chars.as_slice(), '/', 0);
            assert(first_segment(p) =~= p.take(end as int));
            if end == 1 && chars[0] == '.' {
                let dot = text_of(chars.as_slice(), 0, 1);
                assert(dot@ =~= seq!['.']);
                assert(first_segment(p) =~= seq!['.']);
                out.push(dot);
                assert(texts(out@) =~= lead(p));
            } else {
                assert(first_segment(p) != seq!['.']) by {
                    if first_segment(p) == seq!['.'] {
                        assert(first_segment(p).len() == 1);
                        assert(first_segment(p)[0] == '.');
                    }
                }
                assert(texts(out@) =~= lead(p));
            }
        }
        let ghost front = out@;
        let ghost back = rest@;
        out.append(&mut rest);
        assert(texts(front + back) =~= texts(front) + texts(back));
        out
    }

    /// Whether both name the same path.
    pub fn same_as(&self, other: &FsPath) -> (r: bool)
        ensures
            r == same_path(self@, other@),
    {
        let a = self.components();
        let b = other.components();
        if a.len() != b.len() {
            assert(texts(a@).len() != texts(b@).len());
            return false;
        }
        proof {
            assert(texts(a@).take(a@.len() as int) =~= texts(a@));
            assert(texts(b@).take(a@.len() as int) =~= texts(b@));
        }
        agree(a.as_slice(), b.as_slice(), a.len())
    }

    /// Whether this path is `base` or lies below it.
    pub fn starts_with(&self, base: &FsPath) -> (r: bool)
        ensures
            r == within(self@, base@),
    {
        let a = self.components();
        let b = base.components();
        if a.len() < b.len() {
            assert(texts(a@).len() < texts(b@).len());
            return false;
        }
        assert(texts(b@).take(b@.len() as int) =~= texts(b@));
        agree(a.as_slice(), b.as_slice(), b.len())
    }

    /// What remains of this path below `base`.
    pub fn strip_prefix(&self, base: &FsPath) -> (r: Option<FsPath>)
        ensures
            r is Some <==> within(self@, base@),
            r matches Some(rest) ==> rest@ == path_after(self@, components(base@).len()),
            r matches Some(rest) ==> components(rest@) == components(self@).skip(
                components(base@).len() as int,
            ),
    {
        if !self.starts_with(base) {
            return None;
        }
        let n: usize = base.components().len();
        proof {
            lemma_path_after(self@, components(base@).len());
        }
        Some(self.after(n))
    }

    /// This path without its first `n` components.
    fn after(&self, n: usize) -> (r: FsPath)
        requires
            n <= components(self@).len(),
        ensures
            r@ == path_after(self@, n as nat),
    {
        let chars = chars_of(&self.text);
        let ghost p = self@;
        proof {
            lemma_body_of_rest(p);
        }
        let l: usize = self.lead_length();
        if n == 0 {
            let end: usize = trim_back_at(chars.as_slice(), l, chars.len());
            let out = text_of(chars.as_slice(), 0, end);
            proof {
                assert(chars@.subrange(l as int, chars@.len() as int) =~= p.skip(l as int));
                assert(out@ =~= p.take(l as int) + chars@.subrange(l as int, end as int));
            }
            return FsPath { text: out };
        }
        let mut left: usize = n - l;
        let mut at: usize = trim_front_at(chars.as_slice(), l);
        let ghost goal = body_after(p.skip(l as int), (n - l) as nat);
        proof {
            lemma_trim_front_idempotent(p.skip(l as int));
            lemma_body_after_trimmed(p.skip(l as int), (n - l) as nat);
        }
        while left > 0
            invariant
                at <= chars@.len(),
                trim_front(chars@.skip(at as int)) == chars@.skip(at as int),
                body_after(chars@.skip(at as int), left as nat) == goal,
            decreases left,
        {
            let ghost q = chars@.skip(at as int);
            let end: usize = find_from(chars.as_slice(), '/', at);
            let next: usize = if end < chars.len() {
                end + 1
            } else {
                end
            };
            assert(after_segment(q) =~= chars@.skip(next as int));
            at = trim_front_at(chars.as_slice(), next);
            proof {
                lemma_trim_front_idempotent(chars@.skip(next as int));
                lemma_body_after_trimmed(chars@.skip(next as int), (left - 1) as nat);
            }
            left -= 1;
        }
        let end: usize = trim_back_at(chars.as_slice(), at, chars.len());
        assert(chars@.subrange(at as int, chars@.len() as int) =~= chars@.skip(at as int));
        FsPath { text: text_of(chars.as_slice(), at, end) }
    }

    /// The number of characters of the root or the leading `.`.
    fn lead_length(&self) -> (r: usize)
        ensures
            r == lead(self@).len(),
    {
        let all = self.components();
        let chars = chars_of(&self.text);
        let rest = body_texts(chars.as_slice(), 0);
        assert(chars@.skip(0) =~= self@);
        assert(texts(all@).len() == lead(self@).len() + texts(rest@).len());
        all.len() - rest.len()
    }

    /// This path without its last component, unless that is the root or there is none.
    pub fn parent(&self) -> (r: Option<FsPath>)
        ensures
            r is Some <==> parent_of(self@) is Some,
            r matches Some(q) ==> q@ == parent_of(self@)->0,
            r matches Some(q) ==> components(q@) == components(self@).drop_last(),
    {
        let chars = chars_of(&self.text);
        let ghost p = self@;
        proof {
            lemma_body_of_rest(p);
            lemma_parent(p);
        }
        let l: usize = self.lead_length();
        let all = self.components();
        assert(texts(all@).len() == lead(p).len() + body(p).len());
        if all.len() > l {
            let end: usize = trim_back_at(chars.as_slice(), l, chars.len());
            let ghost b = chars@.subrange(l as int, end as int);
            assert(chars@.subrange(l as int, chars@.len() as int) =~= p.skip(l as int));
            let start: usize = segment_start(chars.as_slice(), l, end);
            let cut: usize = if start == l {
                l
            } else {
                start - 1
            };
            let ghost i = last_slash(b);
            assert(b.take(if i < 0 { 0 } else { i }) =~= chars@.subrange(l as int, cut as int));
            let last: usize = trim_back_at(chars.as_slice(), l, cut);
            let out = text_of(chars.as_slice(), 0, last);
            assert(out@ =~= p.take(l as int) + chars@.subrange(l as int, last as int));
            Some(FsPath { text: out })
        } else if l == 1 && !self.is_absolute() {
            Some(FsPath { text: String::new() })
        } else {
            proof {
                if is_absolute(p) {
                    assert(lead(p)[0][0] == '/');
                    assert(seq![seq!['.']][0][0] == '.');
                }
            }
            None
        }
    }

    /// The last component, where it is a name.
    pub fn file_name(&self) -> (r: Option<String>)
        ensures
            r is Some <==> file_name_of(self@) is Some,
            r matches Some(n) ==> n@ == file_name_of(self@)->0,
    {
        let chars = chars_of(&self.text);
        let mut rest = body_texts(chars.as_slice(), 0);
        assert(chars@.skip(0) =~= self@);
        assert(texts(rest@).len() == rest@.len());
        if rest.len() == 0 {
            return None;
        }
        proof {
            reveal_strlit("..");
            assert(".."@ =~= seq!['.', '.']);
            assert(body(self@).last() == rest@.last()@);
        }
        let name = rest.pop().unwrap();
        if text_eq(&name, "..") {
            None
        } else {
            Some(name)
        }
    }

    /// `other` seen from this path.
    pub fn join(&self, other: &str) -> (r: FsPath)
        ensures
            r@ == joined(self@, other@),
    {
        let n: usize = self.text.as_str().unicode_len();
        if other.unicode_len() > 0 && other.get_char(0) == '/' {
            return FsPath::new(other);
        }
        let mut out = self.text.clone();
        if n > 0 && self.text.as_str().get_char(n - 1) != '/' {
            out.push('/');
            assert(out@ =~= self@ + seq!['/']);
        }
        out.append(other);
        FsPath { text: out }
    }

    /// `other` seen from this path.
    pub fn join_path(&self, other: &FsPath) -> (r: FsPath)
        ensures
            r@ == joined(self@, other@),
    {
        self.join(&other.text)
    }

    /// The number of components.
    pub fn depth(&self) -> (r: usize)
        ensures
            r == components(self@).len(),
    {
        let all = self.components();
        assert(texts(all@).len() == all@.len());
        all.len()
    }
}

proof fn lemma_trim_front_idempotent(p: Seq<char>)
    ensures
        trim_front(trim_front(p)) == trim_front(p),
    decreases p.len(),
{
    if p.len() > 0 && !kept(first_segment(p)) {
        lemma_trim_front_idempotent(after_segment(p));
    }
}

proof fn lemma_body_after_trimmed(p: Seq<char>, n: nat)
    ensures
        body_after(trim_front(p), n) == body_after(p, n),
{
    lemma_trim_front_idempotent(p);
}

} // verus!
