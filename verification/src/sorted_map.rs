//! A map from texts to values that is walked in the order of its keys.

use crate::order::{
    flipped, lemma_text_order_total, order_texts, text_order, total_order, Relation,
};
use vstd::prelude::*;

verus! {

/// A map from texts to values, kept as entries in the order of their keys.
#[derive(Debug)]
pub struct SortedMap<V> {
    pub entries: Vec<(String, V)>,
}

/// Whether each key comes before the next.
pub open spec fn keys_ascend<V>(entries: Seq<(String, V)>) -> bool {
    forall|i: int, j: int|
        #![trigger entries[i], entries[j]]
        0 <= i < j < entries.len() ==> text_order(entries[i].0@, entries[j].0@)
            == Relation::Before
}

/// Where the key stands.
pub open spec fn holds_at<V>(entries: Seq<(String, V)>, key: Seq<char>, i: int) -> bool {
    0 <= i < entries.len() && entries[i].0@ == key
}

/// The map that the entries make up.
pub open spec fn map_of<V>(entries: Seq<(String, V)>) -> Map<Seq<char>, V> {
    Map::new(
        |key: Seq<char>| exists|i: int| holds_at(entries, key, i),
        |key: Seq<char>| entries[choose|i: int| holds_at(entries, key, i)].1,
    )
}

impl<V> View for SortedMap<V> {
    type V = Map<Seq<char>, V>;

    open spec fn view(&self) -> Map<Seq<char>, V> {
        map_of(self.entries@)
    }
}

/// Each key has one place.
pub proof fn lemma_map_of<V>(entries: Seq<(String, V)>, i: int)
    requires
        keys_ascend(entries),
        0 <= i < entries.len(),
    ensures
        map_of(entries).dom().contains(entries[i].0@),
        map_of(entries)[entries[i].0@] == entries[i].1,
        forall|j: int| holds_at(entries, entries[i].0@, j) ==> j == i,
{
    let key = entries[i].0@;
    assert(holds_at(entries, key, i));
    assert forall|j: int| holds_at(entries, key, j) implies j == i by {
        lemma_text_order_total();
        let f = |x: Seq<char>, y: Seq<char>| text_order(x, y);
        assert(f(key, key) == Relation::Same);
        if j < i {
            assert(text_order(entries[j].0@, entries[i].0@) == Relation::Before);
        }
        if i < j {
            assert(text_order(entries[i].0@, entries[j].0@) == Relation::Before);
        }
    }
}

/// Every key of the map has a place.
pub proof fn lemma_map_of_place<V>(entries: Seq<(String, V)>, key: Seq<char>) -> (i: int)
    requires
        keys_ascend(entries),
        map_of(entries).dom().contains(key),
    ensures
        holds_at(entries, key, i),
        map_of(entries)[key] == entries[i].1,
{
    choose|i: int| holds_at(entries, key, i)
}

impl<V> SortedMap<V> {
    pub open spec fn wf(&self) -> bool {
        keys_ascend(self.entries@)
    }

    pub fn new() -> (r: SortedMap<V>)
        ensures
            r.wf(),
            r@ == Map::<Seq<char>, V>::empty(),
            r.entries@.len() == 0,
    {
        let r = SortedMap { entries: Vec::new() };
        assert(r@ =~= Map::<Seq<char>, V>::empty());
        r
    }

    /// Where the key stands, or where it would stand.
    fn place(&self, key: &str) -> (r: (usize, bool))
        requires
            self.wf(),
        ensures
            r.0 <= self.entries@.len(),
            r.1 <==> self@.dom().contains(key@),
            r.1 ==> holds_at(self.entries@, key@, r.0 as int),
            forall|j: int|
                0 <= j < r.0 ==> text_order((#[trigger] self.entries@[j]).0@, key@)
                    == Relation::Before,
            !r.1 ==> forall|j: int|
                r.0 <= j < self.entries@.len() ==> text_order(
                    key@,
                    (#[trigger] self.entries@[j]).0@,
                ) == Relation::Before,
    {
        let ghost f = |x: Seq<char>, y: Seq<char>| text_order(x, y);
        proof {
            lemma_text_order_total();
        }
        let mut i: usize = 0;
        while i < self.entries.len()
            invariant
                i <= self.entries@.len(),
                self.wf(),
                total_order(f),
                f == (|x: Seq<char>, y: Seq<char>| text_order(x, y)),
                forall|j: int|
                    0 <= j < i ==> text_order((#[trigger] self.entries@[j]).0@, key@)
                        == Relation::Before,
            decreases self.entries@.len() - i,
        {
            match order_texts(&self.entries[i].0, key) {
                Relation::Before => {},
                Relation::Same => {
                    proof {
                        assert(f(self.entries@[i as int].0@, key@) == Relation::Same);
                        lemma_map_of(self.entries@, i as int);
                    }
                    return (i, true);
                },
                Relation::After => {
                    proof {
                        let here = self.entries@[i as int].0@;
                        assert(f(key@, here) == flipped(f(here, key@)));
                        assert forall|j: int| i <= j < self.entries@.len() implies text_order(
                            key@,
                            (#[trigger] self.entries@[j]).0@,
                        ) == Relation::Before by {
                            if i < j {
                                assert(text_order(
                                    self.entries@[i as int].0@,
                                    self.entries@[j].0@,
                                ) == Relation::Before);
                                assert(f(key@, here) == Relation::Before);
                                assert(f(here, self.entries@[j].0@) == Relation::Before);
                                assert(f(key@, self.entries@[j].0@) == Relation::Before);
                            }
                        }
                        self.lemma_absent(key@, i as int);
                    }
                    return (i, false);
                },
            }
            i += 1;
        }
        proof {
            self.lemma_absent(key@, i as int);
        }
        (i, false)
    }

    proof fn lemma_absent(&self, key: Seq<char>, at: int)
        requires
            self.wf(),
            0 <= at <= self.entries@.len(),
            forall|j: int|
                0 <= j < at ==> text_order((#[trigger] self.entries@[j]).0@, key)
                    == Relation::Before,
            forall|j: int|
                at <= j < self.entries@.len() ==> text_order(
                    key,
                    (#[trigger] self.entries@[j]).0@,
                ) == Relation::Before,
        ensures
            !self@.dom().contains(key),
    {
        lemma_text_order_total();
        let f = |x: Seq<char>, y: Seq<char>| text_order(x, y);
        assert(f(key, key) == Relation::Same);
        if self@.dom().contains(key) {
            let i = lemma_map_of_place(self.entries@, key);
            assert(self.entries@[i].0@ == key);
        }
    }

    /// The value of the key, if it has one.
    pub fn get(&self, key: &str) -> (r: Option<&V>)
        requires
            self.wf(),
        ensures
            r is Some <==> self@.dom().contains(key@),
            r matches Some(v) ==> *v == self@[key@],
    {
        let (i, found) = self.place(key);
        if found {
            proof {
                lemma_map_of(self.entries@, i as int);
            }
            Some(&self.entries[i].1)
        } else {
            None
        }
    }

    /// Gives the key a value in place of the one it may have had.
    pub fn insert(&mut self, key: String, value: V)
        requires
            old(self).wf(),
        ensures
            final(self).wf(),
            final(self)@ == old(self)@.insert(key@, value),
    {
        let ghost before = self.entries@;
        let ghost k = key@;
        let (i, found) = self.place(&key);
        proof {
            lemma_text_order_total();
        }
        if found {
            self.entries.set(i, (key, value));
            proof {
                let after = self.entries@;
                assert forall|a: int, b: int|
                    #![trigger after[a], after[b]]
                    0 <= a < b < after.len() implies text_order(after[a].0@, after[b].0@)
                    == Relation::Before by {
                    assert(text_order(before[a].0@, before[b].0@) == Relation::Before);
                }
                lemma_map_of_updated(before, after, i as int, k, value);
            }
        } else {
            self.entries.insert(i, (key, value));
            proof {
                let after = self.entries@;
                assert forall|a: int, b: int|
                    #![trigger after[a], after[b]]
                    0 <= a < b < after.len() implies text_order(after[a].0@, after[b].0@)
                    == Relation::Before by {
                    let x = if a < i { a } else { a - 1 };
                    let y = if b < i { b } else { b - 1 };
                    if a != i && b != i {
                        assert(after[a] == before[x] && after[b] == before[y]);
                        assert(text_order(before[x].0@, before[y].0@) == Relation::Before);
                    } else if a == i {
                        assert(after[b] == before[y]);
                    } else {
                        assert(after[a] == before[x]);
                    }
                }
                lemma_map_of_inserted(before, after, i as int, k, value);
            }
        }
    }

    /// Takes the key and its value out.
    pub fn remove(&mut self, key: &str) -> (r: Option<V>)
        requires
            old(self).wf(),
        ensures
            final(self).wf(),
            final(self)@ == old(self)@.remove(key@),
            r is Some <==> old(self)@.dom().contains(key@),
            r matches Some(v) ==> v == old(self)@[key@],
    {
        let ghost before = self.entries@;
        let (i, found) = self.place(key);
        if found {
            let (_, value) = self.entries.remove(i);
            proof {
                let after = self.entries@;
                assert forall|a: int, b: int|
                    #![trigger after[a], after[b]]
                    0 <= a < b < after.len() implies text_order(after[a].0@, after[b].0@)
                    == Relation::Before by {
                    let x = if a < i { a } else { a + 1 };
                    let y = if b < i { b } else { b + 1 };
                    assert(after[a] == before[x] && after[b] == before[y]);
                    assert(text_order(before[x].0@, before[y].0@) == Relation::Before);
                }
                lemma_map_of(before, i as int);
                lemma_map_of_removed(before, after, i as int);
            }
            Some(value)
        } else {
            assert(self@ =~= self@.remove(key@));
            None
        }
    }
}

proof fn lemma_map_of_removed<V>(before: Seq<(String, V)>, after: Seq<(String, V)>, i: int)
    requires
        keys_ascend(before),
        keys_ascend(after),
        0 <= i < before.len(),
        after == before.remove(i),
    ensures
        map_of(after) == map_of(before).remove(before[i].0@),
{
    let key = before[i].0@;
    let (m, n) = (map_of(after), map_of(before).remove(key));
    lemma_map_of(before, i);
    assert forall|x: Seq<char>| #[trigger] m.dom().contains(x) implies n.dom().contains(x) && m[x]
        == n[x] by {
        let j = lemma_map_of_place(after, x);
        lemma_map_of(after, j);
        let b = if j < i { j } else { j + 1 };
        assert(after[j] == before[b]);
        lemma_map_of(before, b);
        assert(holds_at(before, x, b));
    }
    assert forall|x: Seq<char>| n.dom().contains(x) implies m.dom().contains(x) by {
        let j = lemma_map_of_place(before, x);
        let a = if j < i { j } else { j - 1 };
        assert(after[a] == before[j]);
        lemma_map_of(after, a);
    }
    assert(m.dom() =~= n.dom());
    assert(m =~= n);
}

proof fn lemma_map_of_updated<V>(
    before: Seq<(String, V)>,
    after: Seq<(String, V)>,
    i: int,
    key: Seq<char>,
    value: V,
)
    requires
        keys_ascend(before),
        keys_ascend(after),
        holds_at(before, key, i),
        holds_at(after, key, i),
        after == before.update(i, after[i]),
        after[i].1 == value,
    ensures
        map_of(after) == map_of(before).insert(key, value),
{
    let (m, n) = (map_of(after), map_of(before).insert(key, value));
    assert forall|x: Seq<char>| m.dom().contains(x) <==> n.dom().contains(x) by {
        if m.dom().contains(x) {
            let j = lemma_map_of_place(after, x);
            if j != i {
                lemma_map_of(before, j);
            }
        }
        if n.dom().contains(x) && x != key {
            let j = lemma_map_of_place(before, x);
            assert(holds_at(after, x, j));
        }
    }
    lemma_map_of(after, i);
    assert forall|x: Seq<char>| m.dom().contains(x) implies m[x] == n[x] by {
        let j = lemma_map_of_place(after, x);
        lemma_map_of(after, j);
        if j != i {
            lemma_map_of(before, j);
        }
    }
    assert(m =~= n);
}

proof fn lemma_map_of_inserted<V>(
    before: Seq<(String, V)>,
    after: Seq<(String, V)>,
    i: int,
    key: Seq<char>,
    value: V,
)
    requires
        keys_ascend(before),
        keys_ascend(after),
        0 <= i <= before.len(),
        holds_at(after, key, i),
        after == before.insert(i, after[i]),
        after[i].1 == value,
    ensures
        map_of(after) == map_of(before).insert(key, value),
{
    let (m, n) = (map_of(after), map_of(before).insert(key, value));
    assert forall|x: Seq<char>| m.dom().contains(x) <==> n.dom().contains(x) by {
        if m.dom().contains(x) && x != key {
            let j = lemma_map_of_place(after, x);
            let b = if j < i { j } else { j - 1 };
            assert(after[j] == before[b]);
            lemma_map_of(before, b);
        }
        if n.dom().contains(x) && x != key {
            let j = lemma_map_of_place(before, x);
            let a = if j < i { j } else { j + 1 };
            assert(after[a] == before[j]);
            assert(holds_at(after, x, a));
        }
        if x == key {
            lemma_map_of(after, i);
        }
    }
    lemma_map_of(after, i);
    assert forall|x: Seq<char>| m.dom().contains(x) implies m[x] == n[x] by {
        let j = lemma_map_of_place(after, x);
        lemma_map_of(after, j);
        if j != i {
            let b = if j < i { j } else { j - 1 };
            assert(after[j] == before[b]);
            lemma_map_of(before, b);
            lemma_map_of(after, i);
            assert(x != key);
        }
    }
    assert(m =~= n);
}

} // verus!
