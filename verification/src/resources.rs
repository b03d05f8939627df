//! Resource capabilities consumed by game states: loading by path, and a
//! store mapping paths to in-memory resources.

use vstd::prelude::*;

use crate::util::str_eq;

verus! {

/// The resource-loading capability: maps a resource file path to an
/// in-memory resource, or to a textual diagnostic on failure.
pub trait ResourceLoader<T> {
    /// Loads a resource using the given resource file path.
    fn load(&mut self, resource_file_path: &'static str) -> Result<T, String>;
}

/// The resource-store capability: an association from resource file paths to
/// owned resources.
pub trait ResourceStore<T> {
    /// Adds a resource to the store.
    fn store(&mut self, resource_file_path: &'static str, value: T);

    /// Removes a resource from the store.
    fn remove(&mut self, resource_file_path: &'static str);

    /// Returns a resource as a shared reference.
    fn get(&self, resource_file_path: &'static str) -> Option<&T>;

    /// Returns a resource as a mutable reference.
    fn get_mut(&mut self, resource_file_path: &'static str) -> Option<&mut T>;
}

/// The map held by an association list; the last entry of a key wins.
spec fn map_of<T>(s: Seq<(&'static str, T)>) -> Map<Seq<char>, T>
    decreases s.len(),
{
    if s.len() == 0 {
        Map::empty()
    } else {
        map_of(s.drop_last()).insert(s.last().0@, s.last().1)
    }
}

/// The association list with every entry of key `k` dropped.
spec fn drop_key<T>(s: Seq<(&'static str, T)>, k: Seq<char>) -> Seq<(&'static str, T)>
    decreases s.len(),
{
    if s.len() == 0 {
        s
    } else if s.first().0@ == k {
        drop_key(s.drop_first(), k)
    } else {
        seq![s.first()] + drop_key(s.drop_first(), k)
    }
}

proof fn lemma_map_of_domain<T>(s: Seq<(&'static str, T)>, k: Seq<char>)
    ensures
        map_of(s).contains_key(k) <==> exists|i: int|
            0 <= i < s.len() && (#[trigger] s[i]).0@ == k,
    decreases s.len(),
{
    if s.len() > 0 {
        lemma_map_of_domain(s.drop_last(), k);
        if map_of(s).contains_key(k) {
            if k == s.last().0@ {
                assert(s[s.len() - 1].0@ == k);
            } else {
                let i = choose|i: int|
                    0 <= i < s.drop_last().len() && (#[trigger] s.drop_last()[i]).0@ == k;
                assert(s[i].0@ == k);
            }
        }
        if exists|i: int| 0 <= i < s.len() && (#[trigger] s[i]).0@ == k {
            let i = choose|i: int| 0 <= i < s.len() && (#[trigger] s[i]).0@ == k;
            if i < s.len() - 1 {
                assert(s.drop_last()[i].0@ == k);
            }
        }
    }
}

proof fn lemma_map_of_push<T>(s: Seq<(&'static str, T)>, k: &'static str, v: T)
    ensures
        map_of(s.push((k, v))) == map_of(s).insert(k@, v),
{
    assert(s.push((k, v)).drop_last() =~= s);
    assert(s.push((k, v)).last() == (k, v));
}

proof fn lemma_map_of_last_match<T>(s: Seq<(&'static str, T)>, i: int)
    requires
        0 <= i < s.len(),
        forall|j: int| i < j < s.len() ==> (#[trigger] s[j]).0@ != s[i].0@,
    ensures
        map_of(s).contains_key(s[i].0@),
        map_of(s)[s[i].0@] == s[i].1,
    decreases s.len(),
{
    if i == s.len() - 1 {
    } else {
        assert(s.drop_last()[i] == s[i]);
        assert(forall|j: int|
            i < j < s.drop_last().len() ==> (#[trigger] s.drop_last()[j]).0@ != s[i].0@);
        lemma_map_of_last_match(s.drop_last(), i);
        assert(s[s.len() - 1].0@ != s[i].0@);
    }
}

proof fn lemma_map_of_update_last<T>(s: Seq<(&'static str, T)>, i: int, v: T)
    requires
        0 <= i < s.len(),
        forall|j: int| i < j < s.len() ==> (#[trigger] s[j]).0@ != s[i].0@,
    ensures
        map_of(s.update(i, (s[i].0, v))) == map_of(s).insert(s[i].0@, v),
    decreases s.len(),
{
    let s2 = s.update(i, (s[i].0, v));
    if i == s.len() - 1 {
        assert(s2.drop_last() =~= s.drop_last());
        assert(s2.last() == (s[i].0, v));
        assert(map_of(s.drop_last()).insert(s[i].0@, s[i].1).insert(s[i].0@, v) =~= map_of(
            s.drop_last(),
        ).insert(s[i].0@, v));
    } else {
        assert(s.drop_last()[i] == s[i]);
        assert(forall|j: int|
            i < j < s.drop_last().len() ==> (#[trigger] s.drop_last()[j]).0@ != s[i].0@);
        lemma_map_of_update_last(s.drop_last(), i, v);
        assert(s2.drop_last() =~= s.drop_last().update(i, (s[i].0, v)));
        assert(s2.last() == s.last());
        assert(s[s.len() - 1].0@ != s[i].0@);
        assert(map_of(s.drop_last()).insert(s[i].0@, v).insert(s.last().0@, s.last().1) =~= map_of(
            s.drop_last(),
        ).insert(s.last().0@, s.last().1).insert(s[i].0@, v));
    }
}

proof fn lemma_drop_key_push<T>(s: Seq<(&'static str, T)>, e: (&'static str, T), k: Seq<char>)
    ensures
        drop_key(s.push(e), k) == if e.0@ == k {
            drop_key(s, k)
        } else {
            drop_key(s, k).push(e)
        },
    decreases s.len(),
{
    let s2 = s.push(e);
    if s.len() == 0 {
        assert(s2.first() == e);
        assert(s2.drop_first() =~= s);
        if e.0@ != k {
            assert(seq![e] + drop_key(s, k) =~= drop_key(s, k).push(e));
        }
    } else {
        lemma_drop_key_push(s.drop_first(), e, k);
        assert(s2.first() == s.first());
        assert(s2.drop_first() =~= s.drop_first().push(e));
        if s.first().0@ == k {
            assert(drop_key(s2, k) == drop_key(s.drop_first().push(e), k));
        } else {
            if e.0@ == k {
            } else {
                assert(seq![s.first()] + drop_key(s.drop_first(), k).push(e) =~= (seq![s.first()]
                    + drop_key(s.drop_first(), k)).push(e));
            }
        }
    }
}

proof fn lemma_map_of_drop_key<T>(s: Seq<(&'static str, T)>, k: Seq<char>)
    ensures
        map_of(drop_key(s, k)) == map_of(s).remove(k),
    decreases s.len(),
{
    if s.len() == 0 {
        assert(map_of(s).remove(k) =~= Map::<Seq<char>, T>::empty());
    } else {
        let dl = s.drop_last();
        let last = s.last();
        lemma_map_of_drop_key(dl, k);
        assert(s =~= dl.push(last));
        lemma_drop_key_push(dl, last, k);
        if last.0@ == k {
            assert(map_of(dl).insert(last.0@, last.1).remove(k) =~= map_of(dl).remove(k));
        } else {
            lemma_map_of_push(drop_key(dl, k), last.0, last.1);
            assert(map_of(dl).insert(last.0@, last.1).remove(k) =~= map_of(dl).remove(k).insert(
                last.0@,
                last.1,
            ));
        }
    }
}

/// Hands out a mutable reference to the value of entry `i`; the final list
/// keeps the key and holds whatever value the caller leaves behind.
fn value_mut<'a, T>(entries: &'a mut Vec<(&'static str, T)>, i: usize) -> (r: &'a mut T)
    requires
        i < old(entries)@.len(),
    ensures
        *r == old(entries)@[i as int].1,
        final(entries)@ == old(entries)@.update(
            i as int,
            (old(entries)@[i as int].0, *final(r)),
        ),
{
    let entry = &mut entries[i];
    &mut entry.1
}

/// An in-memory resource store backed by an association list in which the
/// last entry of a path wins; its abstract value is a map from path
/// characters to resources.
pub struct InMemoryStore<T> {
    entries: Vec<(&'static str, T)>,
}

impl<T> View for InMemoryStore<T> {
    type V = Map<Seq<char>, T>;

    closed spec fn view(&self) -> Map<Seq<char>, T> {
        map_of(self.entries@)
    }
}

impl<T> InMemoryStore<T> {
    /// Creates an empty store.
    pub fn new() -> (store: InMemoryStore<T>)
        ensures
            store@ == Map::<Seq<char>, T>::empty(),
    {
        InMemoryStore { entries: Vec::new() }
    }

    /// The position of the winning entry for `path`: the last one, so that
    /// it agrees with the store's abstract map.
    fn index_of(&self, path: &'static str) -> (r: Option<usize>)
        ensures
            match r {
                Some(i) => {
                    &&& i < self.entries@.len()
                    &&& self.entries@[i as int].0@ == path@
                    &&& forall|j: int|
                        i < j < self.entries@.len() ==> (#[trigger] self.entries@[j]).0@ != path@
                },
                None => forall|j: int|
                    0 <= j < self.entries@.len() ==> (#[trigger] self.entries@[j]).0@ != path@,
            },
    {
        let mut i: usize = self.entries.len();
        while i > 0
            invariant
                i <= self.entries@.len(),
                forall|j: int|
                    i <= j < self.entries@.len() ==> (#[trigger] self.entries@[j]).0@ != path@,
            decreases i,
    {
            i -= 1;
            if str_eq(self.entries[i].0, path) {
                return Some(i);
            }
        }
        None
    }

    /// Stores `value` under `path`, replacing any resource already stored
    /// there.
    pub fn store(&mut self, path: &'static str, value: T)
        ensures
            final(self)@ == old(self)@.insert(path@, value),
    {
        self.remove(path);
        let ghost s = self.entries@;
        self.entries.push((path, value));
        proof {
            lemma_map_of_push(s, path, value);
            assert(old(self)@.remove(path@).insert(path@, value) =~= old(self)@.insert(
                path@,
                value,
            ));
        }
    }

    /// Removes the resource stored under `path`, if any.
    pub fn remove(&mut self, path: &'static str)
        ensures
            final(self)@ == old(self)@.remove(path@),
    {
        let ghost s = self.entries@;
        let mut kept: Vec<(&'static str, T)> = Vec::new();
        proof {
            assert(s.take(0) =~= Seq::<(&'static str, T)>::empty());
        }
        let mut i: usize = 0;
        let n = self.entries.len();
        while self.entries.len() > 0
            invariant
                n == s.len(),
                i <= s.len(),
                self.entries@ == s.skip(i as int),
                kept@ == drop_key(s.take(i as int), path@),
            decreases self.entries@.len(),
        {
            proof {
                assert(i < s.len());
            }
            let entry = self.entries.remove(0);
            proof {
                assert(entry == s[i as int]);
                assert(self.entries@ =~= s.skip(i + 1));
                assert(s.take(i + 1) =~= s.take(i as int).push(s[i as int]));
                lemma_drop_key_push(s.take(i as int), s[i as int], path@);
            }
            if !str_eq(entry.0, path) {
                kept.push(entry);
            }
            i += 1;
        }
        self.entries = kept;
        proof {
            assert(s.take(s.len() as int) =~= s);
            lemma_map_of_drop_key(s, path@);
        }
    }

    /// Returns the resource stored under `path` as a shared reference, or
    /// `None` when nothing is stored there.
    pub fn get(&self, path: &'static str) -> (r: Option<&T>)
        ensures
            match r {
                Some(v) => self@.contains_key(path@) && *v == self@[path@],
                None => !self@.contains_key(path@),
            },
    {
        match self.index_of(path) {
            Some(i) => {
                proof {
                    lemma_map_of_last_match(self.entries@, i as int);
                }
                Some(&self.entries[i].1)
            },
            None => {
                proof {
                    lemma_map_of_domain(self.entries@, path@);
                }
                None
            },
        }
    }

    /// Returns the resource stored under `path` as a mutable reference, or
    /// `None` when nothing is stored there; the final store holds under
    /// `path` whatever the caller leaves behind.
    pub fn get_mut(&mut self, path: &'static str) -> (r: Option<&mut T>)
        ensures
            match r {
                Some(v) => {
                    &&& old(self)@.contains_key(path@)
                    &&& *v == old(self)@[path@]
                    &&& final(self)@ == old(self)@.insert(path@, *final(v))
                },
                None => {
                    &&& !old(self)@.contains_key(path@)
                    &&& final(self)@ == old(self)@
                },
            },
    {
        let ghost s = self.entries@;
        match self.index_of(path) {
            Some(i) => {
                proof {
                    lemma_map_of_last_match(s, i as int);
                    assert forall|v2: T|
                        map_of(s.update(i as int, (s[i as int].0, v2))) == map_of(s).insert(
                            path@,
                            v2,
                        ) by {
                        lemma_map_of_update_last(s, i as int, v2);
                    }
                }
                Some(value_mut(&mut self.entries, i))
            },
            None => {
                proof {
                    lemma_map_of_domain(s, path@);
                }
                None
            },
        }
    }
}

impl<T> ResourceStore<T> for InMemoryStore<T> {
    fn store(&mut self, resource_file_path: &'static str, value: T) {
        InMemoryStore::store(self, resource_file_path, value)
    }

    fn remove(&mut self, resource_file_path: &'static str) {
        InMemoryStore::remove(self, resource_file_path)
    }

    fn get(&self, resource_file_path: &'static str) -> Option<&T> {
        InMemoryStore::get(self, resource_file_path)
    }

    fn get_mut(&mut self, resource_file_path: &'static str) -> Option<&mut T> {
        InMemoryStore::get_mut(self, resource_file_path)
    }
}

/// Law: storing a value and then looking the same path up yields that very
/// value, and removing the path and then looking it up yields nothing,
/// stated over the store's abstract map.
pub proof fn lemma_store_round_trip<T>(m: Map<Seq<char>, T>, path: Seq<char>, value: T)
    ensures
        m.insert(path, value).contains_key(path),
        m.insert(path, value)[path] == value,
        !m.remove(path).contains_key(path),
{
}

} // verus!
