//! A table of values under text keys that can be walked.
use crate::text::same;
use vstd::prelude::*;

verus! {

/// Values under distinct keys.
#[derive(Debug)]
pub struct Table<V> {
    columns: Columns<V>,
}

#[derive(Debug)]
struct Columns<V> {
    keys: Vec<String>,
    values: Vec<V>,
}

/// No key stands twice.
pub open spec fn distinct<V>(entries: Seq<(Seq<char>, V)>) -> bool {
    forall|i: int, j: int|
        0 <= i < entries.len() && 0 <= j < entries.len() && i != j ==> (#[trigger] entries[i]).0 != (
        #[trigger] entries[j]).0
}

/// A key stands at an index.
pub open spec fn stands_at<V>(entries: Seq<(Seq<char>, V)>, key: Seq<char>, i: int) -> bool {
    0 <= i < entries.len() && entries[i].0 == key
}

/// The map that the entries make.
pub open spec fn map_of<V>(entries: Seq<(Seq<char>, V)>) -> Map<Seq<char>, V> {
    Map::new(
        |key: Seq<char>| exists|i: int| stands_at(entries, key, i),
        |key: Seq<char>| entries[choose|i: int| stands_at(entries, key, i)].1,
    )
}

/// The entries without the one at an index, whose place the last one takes.
pub open spec fn without<V>(entries: Seq<(Seq<char>, V)>, i: int) -> Seq<(Seq<char>, V)> {
    entries.update(i, entries.last()).drop_last()
}

/// The entries with a value written under a key: in its place where the key is
/// there, else at the end.
pub open spec fn written<V>(entries: Seq<(Seq<char>, V)>, key: Seq<char>, value: V) -> Seq<
    (Seq<char>, V),
> {
    if exists|i: int| stands_at(entries, key, i) {
        entries.update(choose|i: int| stands_at(entries, key, i), (key, value))
    } else {
        entries.push((key, value))
    }
}

/// Of distinct keys, the map holds what stands beside each, and nothing else.
pub proof fn lemma_map_of<V>(entries: Seq<(Seq<char>, V)>)
    requires
        distinct(entries),
    ensures
        forall|i: int|
            0 <= i < entries.len() ==> map_of(entries).dom().contains((#[trigger] entries[i]).0)
                && map_of(entries)[entries[i].0] == entries[i].1,
        forall|key: Seq<char>| #[trigger]
            map_of(entries).dom().contains(key) ==> exists|i: int| stands_at(entries, key, i),
{
    assert forall|i: int| 0 <= i < entries.len() implies map_of(entries).dom().contains(
        (#[trigger] entries[i]).0,
    ) && map_of(entries)[entries[i].0] == entries[i].1 by {
        assert(stands_at(entries, entries[i].0, i));
        let j = choose|j: int| stands_at(entries, entries[i].0, j);
        assert(entries[j].0 == entries[i].0);
    }
}

/// Writing the value at an index writes it under its key.
pub proof fn lemma_map_update<V>(entries: Seq<(Seq<char>, V)>, i: int, value: V)
    requires
        distinct(entries),
        0 <= i < entries.len(),
    ensures
        distinct(entries.update(i, (entries[i].0, value))),
        map_of(entries.update(i, (entries[i].0, value))) == map_of(entries).insert(
            entries[i].0,
            value,
        ),
{
    let next = entries.update(i, (entries[i].0, value));
    lemma_map_of(entries);
    lemma_map_of(next);
    assert forall|key: Seq<char>| map_of(next).dom().contains(key) == map_of(entries).insert(
        entries[i].0,
        value,
    ).dom().contains(key) by {
        if map_of(next).dom().contains(key) {
            let j = choose|j: int| stands_at(next, key, j);
            assert(stands_at(entries, key, j));
        }
        if map_of(entries).dom().contains(key) {
            let j = choose|j: int| stands_at(entries, key, j);
            assert(stands_at(next, key, j));
        }
        assert(stands_at(next, entries[i].0, i));
    }
    assert forall|key: Seq<char>| map_of(next).dom().contains(key) implies map_of(next)[key]
        == map_of(entries).insert(entries[i].0, value)[key] by {
        let j = choose|j: int| stands_at(next, key, j);
        assert(next[j].0 == key && entries[j].0 == key);
        if j != i {
            assert(entries[i].0 != entries[j].0);
            assert(next[j] == entries[j]);
        }
    }
    assert(map_of(next) =~= map_of(entries).insert(entries[i].0, value));
}

/// Adding an entry under a new key adds it to the map.
pub proof fn lemma_map_push<V>(entries: Seq<(Seq<char>, V)>, key: Seq<char>, value: V)
    requires
        distinct(entries),
        forall|i: int| !stands_at(entries, key, i),
    ensures
        distinct(entries.push((key, value))),
        map_of(entries.push((key, value))) == map_of(entries).insert(key, value),
{
    let next = entries.push((key, value));
    assert(distinct(next)) by {
        assert forall|i: int, j: int|
            0 <= i < next.len() && 0 <= j < next.len() && i != j implies (#[trigger] next[i]).0 != (
        #[trigger] next[j]).0 by {
            if i == entries.len() {
                assert(!stands_at(entries, key, j));
                assert(entries[j] == next[j]);
            } else if j == entries.len() {
                assert(!stands_at(entries, key, i));
                assert(entries[i] == next[i]);
            } else {
                assert(entries[i] == next[i] && entries[j] == next[j]);
            }
        }
    }
    lemma_map_of(entries);
    lemma_map_of(next);
    assert forall|k: Seq<char>| map_of(next).dom().contains(k) == map_of(entries).insert(
        key,
        value,
    ).dom().contains(k) by {
        if map_of(next).dom().contains(k) {
            let j = choose|j: int| stands_at(next, k, j);
            if j < entries.len() {
                assert(stands_at(entries, k, j));
            }
        }
        if map_of(entries).dom().contains(k) {
            let j = choose|j: int| stands_at(entries, k, j);
            assert(stands_at(next, k, j));
        }
        assert(stands_at(next, key, entries.len() as int));
    }
    assert forall|k: Seq<char>| map_of(next).dom().contains(k) implies map_of(next)[k] == map_of(
        entries,
    ).insert(key, value)[k] by {
        let j = choose|j: int| stands_at(next, k, j);
        assert(next[j].0 == k);
        if j < entries.len() {
            assert(stands_at(entries, k, j));
            assert(entries[j] == next[j]);
            assert(k != key);
        }
    }
    assert(map_of(next) =~= map_of(entries).insert(key, value));
}

/// Dropping an entry drops its key from the map.
pub proof fn lemma_map_without<V>(entries: Seq<(Seq<char>, V)>, i: int)
    requires
        distinct(entries),
        0 <= i < entries.len(),
    ensures
        distinct(without(entries, i)),
        map_of(without(entries, i)) == map_of(entries).remove(entries[i].0),
{
    let next = without(entries, i);
    let last = entries.len() - 1;
    assert(distinct(next)) by {
        assert forall|a: int, b: int|
            0 <= a < next.len() && 0 <= b < next.len() && a != b implies (#[trigger] next[a]).0 != (
        #[trigger] next[b]).0 by {
            assert(next[a] == if a == i { entries[last] } else { entries[a] });
            assert(next[b] == if b == i { entries[last] } else { entries[b] });
        }
    }
    lemma_map_of(entries);
    lemma_map_of(next);
    assert forall|k: Seq<char>| map_of(next).dom().contains(k) == map_of(entries).remove(
        entries[i].0,
    ).dom().contains(k) by {
        if map_of(next).dom().contains(k) {
            let j = choose|j: int| stands_at(next, k, j);
            assert(next[j] == if j == i { entries[last] } else { entries[j] });
            assert(stands_at(entries, k, if j == i { last } else { j }));
            assert(entries[i].0 != k);
        }
        if map_of(entries).dom().contains(k) && k != entries[i].0 {
            let j = choose|j: int| stands_at(entries, k, j);
            assert(j != i);
            if j == last {
                assert(next[i] == entries[last]);
                assert(stands_at(next, k, i));
            } else {
                assert(next[j] == entries[j]);
                assert(stands_at(next, k, j));
            }
        }
    }
    assert forall|k: Seq<char>| map_of(next).dom().contains(k) implies map_of(next)[k] == map_of(
        entries,
    ).remove(entries[i].0)[k] by {
        let j = choose|j: int| stands_at(next, k, j);
        assert(next[j] == if j == i { entries[last] } else { entries[j] });
    }
    assert(map_of(next) =~= map_of(entries).remove(entries[i].0));
}

/// The map has as many keys as there are entries.
pub proof fn lemma_map_len<V>(entries: Seq<(Seq<char>, V)>)
    requires
        distinct(entries),
    ensures
        map_of(entries).dom().finite(),
        map_of(entries).len() == entries.len(),
    decreases entries.len(),
{
    if entries.len() == 0 {
        assert(map_of(entries).dom() =~= Set::empty());
    } else {
        let front = entries.drop_last();
        let last = entries.last();
        assert(distinct(front)) by {
            assert forall|i: int, j: int|
                0 <= i < front.len() && 0 <= j < front.len() && i != j implies (#[trigger] front[i]).0
                != (#[trigger] front[j]).0 by {
                assert(entries[i].0 != entries[j].0);
            }
        }
        lemma_map_len(front);
        assert forall|i: int| !stands_at(front, last.0, i) by {
            if stands_at(front, last.0, i) {
                assert(entries[i].0 != entries[entries.len() - 1].0);
            }
        }
        lemma_map_push(front, last.0, last.1);
        assert(front.push((last.0, last.1)) == entries);
        assert(!map_of(front).dom().contains(last.0)) by {
            lemma_map_of(front);
        }
    }
}

impl<V> Columns<V> {
    spec fn entries(self) -> Seq<(Seq<char>, V)> {
        Seq::new(self.keys@.len(), |i: int| (self.keys@[i]@, self.values@[i]))
    }

    spec fn keys_differ(self) -> bool {
        &&& self.keys@.len() == self.values@.len()
        &&& forall|i: int, j: int|
            0 <= i < self.keys@.len() && 0 <= j < self.keys@.len() && i != j ==> (
            #[trigger] self.keys@[i])@ != (#[trigger] self.keys@[j])@
    }
}

impl<V> View for Table<V> {
    type V = Seq<(Seq<char>, V)>;

    closed spec fn view(&self) -> Seq<(Seq<char>, V)> {
        self.columns.entries()
    }
}

impl<V> Table<V> {
    #[verifier::type_invariant]
    spec fn keys_differ(self) -> bool {
        self.columns.keys_differ()
    }

    /// The map that the table makes.
    pub open spec fn map(&self) -> Map<Seq<char>, V> {
        map_of(self@)
    }

    pub fn new() -> (r: Table<V>)
        ensures
            r@ == Seq::<(Seq<char>, V)>::empty(),
            r.map() == Map::<Seq<char>, V>::empty(),
    {
        let r = Table { columns: Columns { keys: Vec::new(), values: Vec::new() } };
        assert(r@ == Seq::<(Seq<char>, V)>::empty());
        assert(r.map() =~= Map::<Seq<char>, V>::empty());
        r
    }

    pub fn len(&self) -> (r: usize)
        ensures
            r == self@.len(),
            distinct(self@),
    {
        proof {
            use_type_invariant(self);
        }
        self.columns.keys.len()
    }

    /// The index at which a key stands.
    pub fn position(&self, key: &str) -> (r: Option<usize>)
        ensures
            match r {
                Some(i) => stands_at(self@, key@, i as int) && self.map().dom().contains(key@)
                    && self.map()[key@] == self@[i as int].1,
                None => !self.map().dom().contains(key@) && forall|i: int|
                    !stands_at(self@, key@, i),
            },
            distinct(self@),
    {
        proof {
            use_type_invariant(self);
            lemma_map_of(self@);
        }
        let mut i: usize = 0;
        while i < self.columns.keys.len()
            invariant
                distinct(self@),
                i <= self.columns.keys.len(),
                forall|k: int| 0 <= k < i ==> self@[k].0 != key@,
            decreases self.columns.keys.len() - i,
        {
            if same(self.columns.keys[i].as_str(), key) {
                proof {
                    lemma_map_of(self@);
                    assert(self@[i as int].0 == key@);
                }
                return Some(i);
            }
            i += 1;
        }
        None
    }

    /// The value under a key.
    pub fn get(&self, key: &str) -> (r: Option<&V>)
        ensures
            match r {
                Some(value) => self.map().dom().contains(key@) && *value == self.map()[key@],
                None => !self.map().dom().contains(key@),
            },
    {
        match self.position(key) {
            Some(i) => Some(self.value_at(i)),
            None => None,
        }
    }

    /// The key at an index.
    pub fn key_at(&self, i: usize) -> (r: &str)
        requires
            i < self@.len(),
        ensures
            r@ == self@[i as int].0,
    {
        self.columns.keys[i].as_str()
    }

    /// The value at an index.
    pub fn value_at(&self, i: usize) -> (r: &V)
        requires
            i < self@.len(),
        ensures
            *r == self@[i as int].1,
    {
        proof {
            use_type_invariant(self);
        }
        &self.columns.values[i]
    }

    /// The value at an index, to be changed.
    pub fn value_at_mut(&mut self, i: usize) -> (r: &mut V)
        requires
            i < old(self)@.len(),
        ensures
            *r == old(self)@[i as int].1,
            final(self)@ == old(self)@.update(i as int, (old(self)@[i as int].0, *final(r))),
    {
        proof {
            use_type_invariant(&*self);
        }
        &mut self.columns.values[i]
    }

    /// Writes a value under a key.
    pub fn insert(&mut self, key: String, value: V)
        ensures
            final(self)@ == written(old(self)@, key@, value),
            final(self).map() == old(self).map().insert(key@, value),
            distinct(final(self)@),
    {
        let ghost before = self@;
        match self.position(key.as_str()) {
            Some(i) => {
                *self.value_at_mut(i) = value;
                proof {
                    lemma_map_update(before, i as int, value);
                    assert(self@ == before.update(i as int, (key@, value)));
                    let j = choose|j: int| stands_at(before, key@, j);
                    assert(before[j].0 == before[i as int].0);
                }
            },
            None => {
                self.push(key, value);
            },
        }
    }

    /// Adds a value under a new key, at the end.
    pub fn push(&mut self, key: String, value: V)
        requires
            forall|i: int| !stands_at(old(self)@, key@, i),
        ensures
            final(self)@ == old(self)@.push((key@, value)),
            final(self).map() == old(self).map().insert(key@, value),
            distinct(final(self)@),
    {
        let ghost before = self@;
        proof {
            use_type_invariant(&*self);
        }
        let mut columns = Columns { keys: Vec::new(), values: Vec::new() };
        std::mem::swap(&mut columns, &mut self.columns);
        columns.keys.push(key);
        columns.values.push(value);
        proof {
            lemma_map_push(before, key@, value);
            assert(columns.entries() == before.push((key@, value)));
            assert(columns.keys_differ()) by {
                assert forall|i: int, j: int|
                    0 <= i < columns.keys@.len() && 0 <= j < columns.keys@.len() && i != j implies (
                #[trigger] columns.keys@[i])@ != (#[trigger] columns.keys@[j])@ by {
                    assert(columns.entries()[i].0 != columns.entries()[j].0);
                }
            }
        }
        self.columns = columns;
    }

    /// Drops the entry at an index; the last one takes its place.
    pub fn remove_at(&mut self, i: usize)
        requires
            i < old(self)@.len(),
        ensures
            final(self)@ == without(old(self)@, i as int),
            final(self).map() == old(self).map().remove(old(self)@[i as int].0),
            distinct(final(self)@),
    {
        proof {
            use_type_invariant(&*self);
            lemma_map_without(self@, i as int);
        }
        let ghost before = self@;
        let mut columns = Columns { keys: Vec::new(), values: Vec::new() };
        std::mem::swap(&mut columns, &mut self.columns);
        let _ = columns.keys.swap_remove(i);
        let _ = columns.values.swap_remove(i);
        proof {
            assert(columns.entries() == without(before, i as int));
            assert(columns.keys_differ()) by {
                assert forall|a: int, b: int|
                    0 <= a < columns.keys@.len() && 0 <= b < columns.keys@.len() && a != b implies (
                #[trigger] columns.keys@[a])@ != (#[trigger] columns.keys@[b])@ by {
                    assert(columns.entries()[a].0 != columns.entries()[b].0);
                }
            }
        }
        self.columns = columns;
    }
}

impl<V: Clone> Clone for Table<V> {
    fn clone(&self) -> (r: Self)
        ensures
            r@.len() == self@.len(),
            forall|i: int|
                0 <= i < self@.len() ==> (#[trigger] r@[i]).0 == self@[i].0 && cloned::<V>(
                    self@[i].1,
                    r@[i].1,
                ),
    {
        proof {
            use_type_invariant(self);
        }
        let mut columns: Columns<V> = Columns { keys: Vec::new(), values: Vec::new() };
        let mut i: usize = 0;
        while i < self.columns.keys.len()
            invariant
                i <= self.columns.keys@.len(),
                self.columns.keys_differ(),
                columns.keys@.len() == i,
                columns.values@.len() == i,
                forall|k: int| 0 <= k < i ==> columns.keys@[k]@ == (#[trigger] self.columns.keys@[k])@,
                forall|k: int|
                    0 <= k < i ==> cloned::<V>(self.columns.values@[k], #[trigger] columns.values@[k]),
            decreases self.columns.keys@.len() - i,
        {
            columns.keys.push(self.columns.keys[i].clone());
            columns.values.push(self.columns.values[i].clone());
            i += 1;
        }
        assert(columns.keys_differ()) by {
            assert forall|a: int, b: int|
                0 <= a < columns.keys@.len() && 0 <= b < columns.keys@.len() && a != b implies (
            #[trigger] columns.keys@[a])@ != (#[trigger] columns.keys@[b])@ by {
                assert(self.columns.keys@[a]@ != self.columns.keys@[b]@);
            }
        }
        let r = Table { columns };
        assert forall|k: int| 0 <= k < self@.len() implies (#[trigger] r@[k]).0 == self@[k].0
            && cloned::<V>(self@[k].1, r@[k].1) by {
            assert(columns.keys@[k]@ == self.columns.keys@[k]@);
            assert(cloned::<V>(self.columns.values@[k], columns.values@[k]));
        }
        r
    }
}

} // verus!
