//! A small map keyed by component name, stored as a vector of entries with
//! pairwise-distinct names.  Component sets are tiny (one entry per boot
//! component of the platform), so a scan is the right implementation; the
//! contracts speak of the map through [`find`].

use vstd::prelude::*;

verus! {

/// One entry of a [`NameMap`]: a component name and the value recorded for it.
#[derive(Debug)]
pub struct MapEntry<T> {
    pub name: String,
    pub value: T,
}

/// The value recorded for `name`, reading entries front to back.
pub open spec fn find<T>(entries: Seq<MapEntry<T>>, name: Seq<char>) -> Option<T>
    decreases entries.len(),
{
    if entries.len() == 0 {
        None
    } else if entries[0].name@ == name {
        Some(entries[0].value)
    } else {
        find(entries.drop_first(), name)
    }
}

/// All entry names are pairwise distinct.
pub open spec fn unique_names<T>(entries: Seq<MapEntry<T>>) -> bool {
    forall|i: int, j: int|
        0 <= i < j < entries.len() ==> entries[i].name@ != entries[j].name@
}

/// If position `i` holds `name`, then under unique names [`find`] returns the
/// value at `i`.
pub proof fn lemma_find_at_index<T>(entries: Seq<MapEntry<T>>, name: Seq<char>, i: int)
    requires
        unique_names(entries),
        0 <= i < entries.len(),
        entries[i].name@ == name,
    ensures
        find(entries, name) == Some(entries[i].value),
    decreases entries.len(),
{
    if i > 0 {
        assert(entries[0].name@ != name);
        assert(unique_names(entries.drop_first())) by {
            assert(forall|p: int, q: int|
                0 <= p < q < entries.drop_first().len() ==> entries.drop_first()[p].name@
                    != entries.drop_first()[q].name@) by {
                assert(forall|p: int|
                    0 <= p < entries.drop_first().len() ==> entries.drop_first()[p]
                        == entries[p + 1]);
            }
        }
        lemma_find_at_index(entries.drop_first(), name, i - 1);
    }
}

/// If no position holds `name`, [`find`] returns `None`.
pub proof fn lemma_find_absent<T>(entries: Seq<MapEntry<T>>, name: Seq<char>)
    requires
        forall|i: int| 0 <= i < entries.len() ==> entries[i].name@ != name,
    ensures
        find(entries, name) == None::<T>,
    decreases entries.len(),
{
    if entries.len() > 0 {
        assert(forall|i: int|
            0 <= i < entries.drop_first().len() ==> entries.drop_first()[i] == entries[i + 1]);
        lemma_find_absent(entries.drop_first(), name);
    }
}

/// A map from component name to `T`, with pairwise-distinct names.
#[derive(Debug)]
pub struct NameMap<T> {
    pub entries: Vec<MapEntry<T>>,
}

impl<T> View for NameMap<T> {
    type V = Seq<MapEntry<T>>;

    open spec fn view(&self) -> Seq<MapEntry<T>> {
        self.entries@
    }
}

impl<T> NameMap<T> {
    /// The map is well formed when its names are pairwise distinct.
    pub open spec fn wf(&self) -> bool {
        unique_names(self@)
    }

    /// The value recorded for `name`.
    pub open spec fn spec_get(&self, name: Seq<char>) -> Option<T> {
        find(self@, name)
    }

    /// The empty map.
    pub fn new() -> (r: NameMap<T>)
        ensures
            r.wf(),
            r@ =~= Seq::<MapEntry<T>>::empty(),
    {
        NameMap { entries: Vec::new() }
    }

    /// Number of entries.
    pub fn len(&self) -> (r: usize)
        ensures
            r == self@.len(),
    {
        self.entries.len()
    }

    /// The entry at position `i`, for iteration by index.
    pub fn entry_at(&self, i: usize) -> (r: &MapEntry<T>)
        requires
            i < self@.len(),
        ensures
            *r == self@[i as int],
    {
        &self.entries[i]
    }

    /// The position holding `name`, if any.
    fn find_index(&self, name: &String) -> (r: Option<usize>)
        ensures
            match r {
                Some(i) => i < self@.len() && self@[i as int].name@ == name@,
                None => forall|i: int| 0 <= i < self@.len() ==> self@[i].name@ != name@,
            },
    {
        let n = self.entries.len();
        let mut i: usize = 0;
        while i < n
            invariant
                i <= n,
                n == self@.len(),
                forall|j: int| 0 <= j < i ==> self@[j].name@ != name@,
            decreases n - i,
        {
            if self.entries[i].name == *name {
                return Some(i);
            }
            i = i + 1;
        }
        None
    }

    /// The value recorded for `name`, if any.
    pub fn get(&self, name: &String) -> (r: Option<&T>)
        requires
            self.wf(),
        ensures
            match r {
                Some(v) => self.spec_get(name@) == Some(*v),
                None => self.spec_get(name@) == None::<T>,
            },
    {
        match self.find_index(name) {
            Some(i) => {
                proof {
                    lemma_find_at_index(self@, name@, i as int);
                }
                Some(&self.entries[i].value)
            },
            None => {
                proof {
                    lemma_find_absent(self@, name@);
                }
                None
            },
        }
    }

    /// Record `value` for `name`, replacing any previous value.  Every other
    /// name keeps its value.
    pub fn insert(&mut self, name: String, value: T)
        requires
            old(self).wf(),
        ensures
            final(self).wf(),
            final(self).spec_get(name@) == Some(value),
            forall|other: Seq<char>|
                other != name@ ==> final(self).spec_get(other) == old(self).spec_get(other),
    {
        let ghost orig = self@;
        match self.find_index(&name) {
            Some(i) => {
                let entry = MapEntry { name, value };
                self.entries.set(i, entry);
                proof {
                    assert forall|p: int, q: int| 0 <= p < q < self@.len() implies self@[p].name@
                        != self@[q].name@ by {
                        if p != i && q != i {
                            assert(self@[p] == orig[p] && self@[q] == orig[q]);
                        } else if p == i {
                            assert(self@[q] == orig[q] && orig[q].name@ != orig[i as int].name@);
                        } else {
                            assert(self@[p] == orig[p] && orig[p].name@ != orig[i as int].name@);
                        }
                    }
                    lemma_find_at_index(self@, self@[i as int].name@, i as int);
                    assert forall|other: Seq<char>| other != self@[i as int].name@ implies
                        self.spec_get(other) == find(orig, other) by {
                        lemma_same_find_except(orig, self@, i as int, other);
                    }
                }
            },
            None => {
                let ghost nameview = name@;
                let entry = MapEntry { name, value };
                self.entries.push(entry);
                proof {
                    assert(self.wf()) by {
                        assert(forall|p: int|
                            0 <= p < orig.len() ==> self@[p] == orig[p] && self@[p].name@
                                != nameview);
                    }
                    lemma_find_at_index(self@, nameview, orig.len() as int);
                    assert forall|other: Seq<char>| other != nameview implies
                        self.spec_get(other) == find(orig, other) by {
                        lemma_find_after_push(orig, self@[orig.len() as int], other);
                    }
                }
            },
        }
    }

    /// Whether the map's names are pairwise distinct, checked by scanning.
    pub fn check_unique(&self) -> (r: bool)
        ensures
            r == self.wf(),
    {
        let n = self.entries.len();
        let mut i: usize = 1;
        while i < n
            invariant
                1 <= i <= n || n == 0,
                n == self@.len(),
                forall|p: int, q: int| 0 <= p < q < i ==> self@[p].name@ != self@[q].name@,
            decreases n - i,
        {
            let mut j: usize = 0;
            while j < i
                invariant
                    j <= i < n,
                    n == self@.len(),
                    forall|q: int| 0 <= q < j ==> self@[q].name@ != self@[i as int].name@,
                decreases i - j,
            {
                if self.entries[j].name == self.entries[i].name {
                    return false;
                }
                j = j + 1;
            }
            i = i + 1;
        }
        true
    }

    /// Remove any value recorded for `name`.  Every other name keeps its
    /// value.
    pub fn remove(&mut self, name: &String)
        requires
            old(self).wf(),
        ensures
            final(self).wf(),
            final(self).spec_get(name@) == None::<T>,
            forall|other: Seq<char>|
                other != name@ ==> final(self).spec_get(other) == old(self).spec_get(other),
    {
        let ghost orig = self@;
        match self.find_index(name) {
            Some(i) => {
                self.entries.remove(i);
                proof {
                    assert(self.wf()) by {
                        assert(forall|p: int|
                            0 <= p < self@.len() ==> self@[p] == if p < i {
                                orig[p]
                            } else {
                                orig[p + 1]
                            });
                    }
                    assert(forall|p: int| 0 <= p < self@.len() ==> self@[p].name@ != name@);
                    lemma_find_absent(self@, name@);
                    assert forall|other: Seq<char>| other != name@ implies
                        self.spec_get(other) == find(orig, other) by {
                        lemma_find_after_remove(orig, self@, i as int, other);
                    }
                }
            },
            None => {
                proof {
                    lemma_find_absent(self@, name@);
                }
            },
        }
    }
}

/// Two entry sequences that agree everywhere but at position `i` have the
/// same [`find`] result for every name held at no position `i` of either.
proof fn lemma_same_find_except<T>(a: Seq<MapEntry<T>>, b: Seq<MapEntry<T>>, i: int, name: Seq<char>)
    requires
        a.len() == b.len(),
        0 <= i < a.len(),
        forall|p: int| 0 <= p < a.len() && p != i ==> a[p] == b[p],
        a[i].name@ != name,
        b[i].name@ != name,
    ensures
        find(a, name) == find(b, name),
    decreases a.len(),
{
    if a.len() > 0 {
        if i == 0 {
            assert(a.drop_first() =~= b.drop_first());
        } else {
            assert(a[0] == b[0]);
            if a[0].name@ != name {
                assert(forall|p: int|
                    0 <= p < a.drop_first().len() && p != i - 1 ==> a.drop_first()[p]
                        == b.drop_first()[p]);
                assert(a.drop_first()[i - 1] == a[i]);
                assert(b.drop_first()[i - 1] == b[i]);
                lemma_same_find_except(a.drop_first(), b.drop_first(), i - 1, name);
            }
        }
    }
}

/// Appending an entry with a different name leaves [`find`] unchanged.
proof fn lemma_find_after_push<T>(a: Seq<MapEntry<T>>, entry: MapEntry<T>, name: Seq<char>)
    requires
        entry.name@ != name,
    ensures
        find(a.push(entry), name) == find(a, name),
    decreases a.len(),
{
    if a.len() == 0 {
        assert(a.push(entry)[0] == entry);
        assert(a.push(entry).drop_first() =~= Seq::<MapEntry<T>>::empty());
        assert(find(Seq::<MapEntry<T>>::empty(), name) == None::<T>);
    } else {
        assert(a.push(entry)[0] == a[0]);
        if a[0].name@ != name {
            assert(a.push(entry).drop_first() =~= a.drop_first().push(entry));
            lemma_find_after_push(a.drop_first(), entry, name);
        }
    }
}

/// Removing the entry at position `i` leaves [`find`] unchanged for every
/// name that position did not hold, given unique names.
proof fn lemma_find_after_remove<T>(a: Seq<MapEntry<T>>, b: Seq<MapEntry<T>>, i: int, name: Seq<char>)
    requires
        0 <= i < a.len(),
        b =~= a.remove(i),
        a[i].name@ != name,
    ensures
        find(a, name) == find(b, name),
    decreases a.len(),
{
    if i == 0 {
        assert(b =~= a.drop_first());
    } else {
        assert(b[0] == a[0]);
        if a[0].name@ != name {
            assert(b.drop_first() =~= a.drop_first().remove(i - 1));
            lemma_find_after_remove(a.drop_first(), b.drop_first(), i - 1, name);
        }
    }
}

} // verus!
