//! A map from names to values that remembers the order of first insertion.
use vstd::prelude::*;

use crate::text::str_eq;

verus! {

/// Values keyed by name. No name occurs twice, and a name keeps its place when its value is
/// replaced.
#[derive(Debug)]
pub struct NameMap<V> {
    entries: Vec<(String, V)>,
}

/// The index of the first entry named `name`, or the number of entries.
pub open spec fn name_index<V>(entries: Seq<(String, V)>, name: Seq<char>) -> int
    decreases entries.len(),
{
    if entries.len() == 0 {
        0
    } else if entries[0].0@ == name {
        0
    } else {
        1 + name_index(entries.drop_first(), name)
    }
}

/// No two entries have the same name.
pub open spec fn names_distinct<V>(entries: Seq<(String, V)>) -> bool {
    forall|i: int, j: int|
        0 <= i < j < entries.len() ==> (#[trigger] entries[i]).0@ != (#[trigger] entries[j]).0@
}

/// The mapping that a list of entries stands for: of equal names the first counts.
pub open spec fn entries_map<V>(entries: Seq<(String, V)>) -> Map<Seq<char>, V> {
    Map::new(
        |name: Seq<char>| name_index(entries, name) < entries.len(),
        |name: Seq<char>| entries[name_index(entries, name)].1,
    )
}

/// What `name_index` finds.
pub proof fn lemma_name_index<V>(entries: Seq<(String, V)>, name: Seq<char>)
    ensures
        0 <= name_index(entries, name) <= entries.len(),
        name_index(entries, name) < entries.len() ==> entries[name_index(entries, name)].0@ == name,
        forall|i: int|
            0 <= i < name_index(entries, name) ==> (#[trigger] entries[i]).0@ != name,
    decreases entries.len(),
{
    if entries.len() > 0 && entries[0].0@ != name {
        lemma_name_index(entries.drop_first(), name);
        assert forall|i: int| 0 <= i < name_index(entries, name) implies (
        #[trigger] entries[i]).0@ != name by {
            if i > 0 {
                assert(entries.drop_first()[i - 1] == entries[i]);
            }
        }
        if name_index(entries, name) < entries.len() {
            assert(entries.drop_first()[name_index(entries, name) - 1] == entries[name_index(
                entries,
                name,
            )]);
        }
    }
}

/// `name_index` is the only index with its property.
pub proof fn lemma_name_index_is<V>(entries: Seq<(String, V)>, name: Seq<char>, k: int)
    requires
        0 <= k <= entries.len(),
        k < entries.len() ==> entries[k].0@ == name,
        forall|i: int| 0 <= i < k ==> (#[trigger] entries[i]).0@ != name,
    ensures
        name_index(entries, name) == k,
{
    lemma_name_index(entries, name);
    let f = name_index(entries, name);
    if f < k {
        assert(entries[f].0@ != name);
    } else if k < f {
        assert(entries[k].0@ != name);
    }
}

impl<V> NameMap<V> {
    /// The entries in order of first insertion.
    pub closed spec fn list(&self) -> Seq<(String, V)> {
        self.entries@
    }

    /// The mapping from names to values.
    pub open spec fn map(&self) -> Map<Seq<char>, V> {
        entries_map(self.list())
    }

    #[verifier::type_invariant]
    spec fn wf(&self) -> bool {
        names_distinct(self.entries@)
    }

    pub fn new() -> (r: Self)
        ensures
            r.list() == Seq::<(String, V)>::empty(),
            r.map() == Map::<Seq<char>, V>::empty(),
    {
        let r = NameMap { entries: Vec::new() };
        assert(r.map() =~= Map::<Seq<char>, V>::empty());
        r
    }

    pub fn len(&self) -> (r: usize)
        ensures
            r == self.list().len(),
    {
        self.entries.len()
    }

    /// The entry at position `i`.
    pub fn entry(&self, i: usize) -> (r: (&String, &V))
        requires
            i < self.list().len(),
        ensures
            *r.0 == self.list()[i as int].0,
            *r.1 == self.list()[i as int].1,
    {
        (&self.entries[i].0, &self.entries[i].1)
    }

    /// All entries, in order.
    pub fn entries(&self) -> (r: &Vec<(String, V)>)
        ensures
            r@ == self.list(),
            names_distinct(r@),
    {
        proof {
            use_type_invariant(self);
        }
        &self.entries
    }

    /// The position of a name, or the number of entries where there is none.
    pub(crate) fn find(&self, name: &str) -> (r: usize)
        ensures
            r == name_index(self.list(), name@),
            r <= self.list().len(),
    {
        let mut i: usize = 0;
        while i < self.entries.len()
            invariant
                i <= self.entries@.len(),
                forall|j: int| 0 <= j < i ==> (#[trigger] self.entries@[j]).0@ != name@,
            decreases self.entries@.len() - i,
        {
            if str_eq(self.entries[i].0.as_str(), name) {
                proof {
                    lemma_name_index_is(self.entries@, name@, i as int);
                }
                return i;
            }
            i += 1;
        }
        proof {
            lemma_name_index_is(self.entries@, name@, i as int);
        }
        i
    }

    pub fn get(&self, name: &str) -> (r: Option<&V>)
        ensures
            match r {
                Some(v) => self.map().contains_key(name@) && self.map()[name@] == *v,
                None => !self.map().contains_key(name@),
            },
    {
        let i: usize = self.find(name);
        proof {
            lemma_name_index(self.list(), name@);
        }
        if i < self.entries.len() {
            Some(&self.entries[i].1)
        } else {
            None
        }
    }

    pub fn contains_key(&self, name: &str) -> (r: bool)
        ensures
            r == self.map().contains_key(name@),
    {
        self.get(name).is_some()
    }

    /// Binds `name` to `value`: at its old place where the name is there, else at the end.
    pub fn insert(&mut self, name: String, value: V)
        ensures
            final(self).map() == old(self).map().insert(name@, value),
            old(self).map().contains_key(name@) ==> final(self).list() == old(self).list().update(
                name_index(old(self).list(), name@),
                (old(self).list()[name_index(old(self).list(), name@)].0, value),
            ),
            !old(self).map().contains_key(name@) ==> final(self).list() == old(self).list().push(
                (name, value),
            ),
    {
        proof {
            use_type_invariant(&*self);
            lemma_name_index(self.list(), name@);
        }
        let i: usize = self.find(name.as_str());
        let ghost before = self.entries@;
        let mut entries: Vec<(String, V)> = Vec::new();
        std::mem::swap(&mut entries, &mut self.entries);
        if i < entries.len() {
            let key = entries[i].0.clone();
            entries.set(i, (key, value));
            proof {
                assert forall|n: Seq<char>| #[trigger]
                    name_index(entries@, n) == name_index(before, n) by {
                    lemma_name_index(before, n);
                    lemma_name_index_is(entries@, n, name_index(before, n));
                }
                lemma_name_index_unique_value(before, name@);
            }
        } else {
            let ghost key = name@;
            entries.push((name, value));
            proof {
                assert forall|n: Seq<char>| #[trigger]
                    name_index(entries@, n) == (if name_index(before, n) == before.len() && n
                        != key {
                        before.len() as int + 1
                    } else {
                        name_index(before, n)
                    }) by {
                    lemma_name_index(before, n);
                    lemma_name_index_is(
                        entries@,
                        n,
                        if name_index(before, n) == before.len() && n != key {
                            before.len() as int + 1
                        } else {
                            name_index(before, n)
                        },
                    );
                }
                assert forall|n: Seq<char>| #[trigger] name_index(before, n) <= before.len() by {
                    lemma_name_index(before, n);
                }
            }
        }
        self.entries = entries;
        proof {
            assert forall|n: Seq<char>| #[trigger] name_index(before, n) <= before.len()
                && 0 <= name_index(before, n) by {
                lemma_name_index(before, n);
            }
            assert(self.map() =~= old(self).map().insert(name@, value));
        }
    }
}

impl<V> NameMap<V> {
    /// Takes the binding of `name` out.
    pub fn remove(&mut self, name: &str) -> (r: Option<V>)
        ensures
            final(self).map() == old(self).map().remove(name@),
            match r {
                Some(v) => old(self).map().contains_key(name@) && old(self).map()[name@] == v
                    && final(self).list() == old(self).list().remove(
                    name_index(old(self).list(), name@),
                ),
                None => !old(self).map().contains_key(name@) && final(self).list() == old(
                    self,
                ).list(),
            },
    {
        proof {
            use_type_invariant(&*self);
            lemma_name_index(self.list(), name@);
        }
        let i: usize = self.find(name);
        let ghost before = self.entries@;
        if i >= self.entries.len() {
            assert(self.map() =~= old(self).map().remove(name@));
            return None;
        }
        let mut entries: Vec<(String, V)> = Vec::new();
        std::mem::swap(&mut entries, &mut self.entries);
        let (_, v) = entries.remove(i);
        proof {
            let after = entries@;
            assert forall|n: Seq<char>| #[trigger]
                name_index(after, n) == (if n == name@ {
                    after.len() as int
                } else if name_index(before, n) < i {
                    name_index(before, n)
                } else {
                    name_index(before, n) - 1
                }) by {
                lemma_name_index(before, n);
                let k = if n == name@ {
                    after.len() as int
                } else if name_index(before, n) < i {
                    name_index(before, n)
                } else {
                    name_index(before, n) - 1
                };
                assert forall|j: int| 0 <= j < k implies (#[trigger] after[j]).0@ != n by {
                    if j < i {
                        assert(after[j] == before[j]);
                    } else {
                        assert(after[j] == before[j + 1]);
                    }
                }
                lemma_name_index_is(after, n, k);
            }
            assert forall|n: Seq<char>| #[trigger] name_index(before, n) <= before.len()
                && 0 <= name_index(before, n) by {
                lemma_name_index(before, n);
            }
            lemma_name_index_unique_value(before, name@);
        }
        self.entries = entries;
        assert(self.map() =~= old(self).map().remove(name@));
        Some(v)
    }
}

/// The mapping of a list of entries with distinct names holds exactly the entries.
pub proof fn lemma_entries_map<V>(entries: Seq<(String, V)>)
    requires
        names_distinct(entries),
    ensures
        forall|i: int|
            0 <= i < entries.len() ==> entries_map(entries).contains_key(
                (#[trigger] entries[i]).0@,
            ) && entries_map(entries)[entries[i].0@] == entries[i].1,
        forall|n: Seq<char>| #[trigger]
            entries_map(entries).contains_key(n) ==> exists|i: int|
                0 <= i < entries.len() && (#[trigger] entries[i]).0@ == n,
{
    assert forall|i: int| 0 <= i < entries.len() implies entries_map(entries).contains_key(
        (#[trigger] entries[i]).0@,
    ) && entries_map(entries)[entries[i].0@] == entries[i].1 by {
        lemma_name_index(entries, entries[i].0@);
        lemma_name_index_is(entries, entries[i].0@, i);
    }
    assert forall|n: Seq<char>| #[trigger] entries_map(entries).contains_key(n) implies exists|
        i: int,
    |
        0 <= i < entries.len() && (#[trigger] entries[i]).0@ == n by {
        lemma_name_index(entries, n);
        assert(entries[name_index(entries, n)].0@ == n);
    }
}

/// The mapping that comes of binding the entries one after the other.
pub open spec fn folded<V>(entries: Seq<(String, V)>) -> Map<Seq<char>, V>
    decreases entries.len(),
{
    if entries.len() == 0 {
        Map::empty()
    } else {
        folded(entries.drop_last()).insert(entries.last().0@, entries.last().1)
    }
}

/// Binding entries with distinct names gives their mapping.
pub proof fn lemma_folded<V>(entries: Seq<(String, V)>)
    requires
        names_distinct(entries),
    ensures
        folded(entries) == entries_map(entries),
    decreases entries.len(),
{
    if entries.len() > 0 {
        let front = entries.drop_last();
        assert(names_distinct(front));
        lemma_folded(front);
        assert forall|n: Seq<char>| #[trigger] name_index(entries, n) == (if name_index(front, n)
            < front.len() {
            name_index(front, n)
        } else if n == entries.last().0@ {
            front.len() as int
        } else {
            entries.len() as int
        }) by {
            lemma_name_index(front, n);
            let k = if name_index(front, n) < front.len() {
                name_index(front, n)
            } else if n == entries.last().0@ {
                front.len() as int
            } else {
                entries.len() as int
            };
            assert forall|i: int| 0 <= i < k implies (#[trigger] entries[i]).0@ != n by {
                if i < front.len() {
                    assert(front[i] == entries[i]);
                }
            }
            if k < front.len() {
                assert(front[k] == entries[k]);
            }
            lemma_name_index_is(entries, n, k);
        }
        assert forall|n: Seq<char>| 0 <= #[trigger] name_index(front, n) <= front.len() by {
            lemma_name_index(front, n);
        }
        assert(name_index(front, entries.last().0@) == front.len()) by {
            lemma_name_index(front, entries.last().0@);
            let k = name_index(front, entries.last().0@);
            if k < front.len() {
                assert(front[k] == entries[k]);
            }
        }
        assert(folded(entries) =~= entries_map(entries));
    } else {
        assert(folded(entries) =~= entries_map(entries));
    }
}

impl<V> NameMap<V> {
    /// Binds the entries one after the other.
    pub fn from_list(entries: Vec<(String, V)>) -> (r: Self)
        ensures
            r.map() == folded(entries@),
    {
        let ghost all = entries@;
        let mut rest: Vec<(String, V)> = Vec::new();
        let mut source = entries;
        let n: usize = source.len();
        while source.len() > 0
            invariant
                source@.len() + rest@.len() == n,
                n == all.len(),
                source@ == all.take(source@.len() as int),
                forall|i: int|
                    0 <= i < rest@.len() ==> #[trigger] rest@[i] == all[n - 1 - i],
            decreases source@.len(),
        {
            match source.pop() {
                Some(e) => {
                    rest.push(e);
                },
                None => {},
            }
            assert(source@ =~= all.take(source@.len() as int));
        }
        let mut out: NameMap<V> = NameMap::new();
        assert(all.take(0) =~= Seq::empty());
        while rest.len() > 0
            invariant
                n == all.len(),
                rest@.len() <= n,
                out.map() == folded(all.take(n - rest@.len())),
                forall|i: int|
                    0 <= i < rest@.len() ==> #[trigger] rest@[i] == all[n - 1 - i],
            decreases rest@.len(),
        {
            let ghost k = n - rest@.len();
            match rest.pop() {
                Some((name, v)) => {
                    assert((name, v) == all[k]);
                    assert(all.take(k + 1).drop_last() =~= all.take(k));
                    out.insert(name, v);
                },
                None => {},
            }
        }
        assert(all.take(n as int) =~= all);
        out
    }
}

/// Entries with the same names and the same models of values have the same mapping to models.
pub proof fn lemma_deep_eq<V: View>(a: Seq<(String, V)>, b: Seq<(String, V)>)
    requires
        a.len() == b.len(),
        forall|i: int|
            0 <= i < a.len() ==> (#[trigger] a[i]).0@ == b[i].0@ && a[i].1@ == b[i].1@,
    ensures
        deep(entries_map(a)) == deep(entries_map(b)),
        deep(folded(a)) == deep(folded(b)),
    decreases a.len(),
{
    assert forall|n: Seq<char>| #[trigger] name_index(a, n) == name_index(b, n) by {
        lemma_name_index(b, n);
        assert forall|i: int| 0 <= i < name_index(b, n) implies (#[trigger] a[i]).0@ != n by {
            assert(b[i].0@ != n);
        }
        lemma_name_index_is(a, n, name_index(b, n));
    }
    assert forall|n: Seq<char>| 0 <= #[trigger] name_index(b, n) by {
        lemma_name_index(b, n);
    }
    assert(deep(entries_map(a)) =~= deep(entries_map(b)));
    if a.len() > 0 {
        lemma_deep_eq(a.drop_last(), b.drop_last());
        let x = folded(a.drop_last());
        let y = folded(b.drop_last());
        assert(deep(x.insert(a.last().0@, a.last().1)) =~= deep(x).insert(
            a.last().0@,
            a.last().1@,
        ));
        assert(deep(y.insert(b.last().0@, b.last().1)) =~= deep(y).insert(
            b.last().0@,
            b.last().1@,
        ));
    } else {
        assert(deep(folded(a)) =~= deep(folded(b)));
    }
}

/// The mapping with every value replaced by its model.
pub open spec fn deep<V: View>(m: Map<Seq<char>, V>) -> Map<Seq<char>, V::V> {
    m.map_values(|v: V| v@)
}

pub proof fn lemma_deep_insert<V: View>(m: Map<Seq<char>, V>, name: Seq<char>, v: V)
    ensures
        deep(m.insert(name, v)) == deep(m).insert(name, v@),
        deep(m).contains_key(name) == m.contains_key(name),
        m.contains_key(name) ==> deep(m)[name] == m[name]@,
{
    assert(deep(m.insert(name, v)) =~= deep(m).insert(name, v@));
}

proof fn lemma_name_index_unique_value<V>(entries: Seq<(String, V)>, name: Seq<char>)
    ensures
        forall|n: Seq<char>|
            n != name && name_index(entries, n) < entries.len() ==> #[trigger] name_index(
                entries,
                n,
            ) != name_index(entries, name),
{
    assert forall|n: Seq<char>|
        n != name && name_index(entries, n) < entries.len() implies #[trigger] name_index(
        entries,
        n,
    ) != name_index(entries, name) by {
        lemma_name_index(entries, n);
        lemma_name_index(entries, name);
    }
}

} // verus!
