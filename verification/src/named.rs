//! Things that are found by the name of an instance and a name within it.

use vstd::prelude::*;

verus! {

/// The two names under which something is found.
pub type Key = (Seq<char>, Seq<char>);

/// A map from the name of an instance and a name within it. No pair of names
/// occurs twice; what is inserted later takes the place of what was there.
#[derive(Debug)]
pub struct NamedMap<T> {
    entries: Vec<(String, String, T)>,
}

/// The two names of something in a map.
pub open spec fn names<T>(entry: (String, String, T)) -> Key {
    (entry.0@, entry.1@)
}

/// What the first `n` entries say.
spec fn entries_map<T>(entries: Seq<(String, String, T)>, n: nat) -> Map<Key, T>
    decreases n,
{
    if n == 0 || n > entries.len() {
        Map::empty()
    } else {
        entries_map(entries, (n - 1) as nat).insert(names(entries[n - 1]), entries[n - 1].2)
    }
}

/// A pair of names is in the map if and only if an entry has it; if no two
/// entries have it, the entry says what it stands for.
proof fn lemma_entries_map<T>(entries: Seq<(String, String, T)>, n: nat, key: Key)
    requires
        n <= entries.len(),
    ensures
        entries_map(entries, n).contains_key(key) <==> exists|i: int|
            0 <= i < n && #[trigger] names(entries[i]) == key,
        forall|i: int|
            0 <= i < n && #[trigger] names(entries[i]) == key && (forall|j: int|
                0 <= j < n && j != i ==> #[trigger] names(entries[j]) != key)
                ==> entries_map(entries, n)[key] == entries[i].2,
    decreases n,
{
    if n > 0 {
        lemma_entries_map(entries, (n - 1) as nat, key);
        if entries_map(entries, n).contains_key(key) {
            if names(entries[n - 1]) != key {
                let i = choose|i: int| 0 <= i < n - 1 && #[trigger] names(entries[i]) == key;
                assert(names(entries[i]) == key);
            }
        }
    }
}

/// The map depends on its first `n` entries alone.
proof fn lemma_entries_map_prefix<T>(
    a: Seq<(String, String, T)>,
    b: Seq<(String, String, T)>,
    n: nat,
)
    requires
        n <= a.len(),
        n <= b.len(),
        forall|i: int| 0 <= i < n ==> a[i] == b[i],
    ensures
        entries_map(a, n) == entries_map(b, n),
    decreases n,
{
    if n > 0 {
        lemma_entries_map_prefix(a, b, (n - 1) as nat);
    }
}

impl<T> View for NamedMap<T> {
    type V = Map<Key, T>;

    closed spec fn view(&self) -> Map<Key, T> {
        entries_map(self.entries@, self.entries@.len())
    }
}

impl<T> NamedMap<T> {
    /// No pair of names occurs twice.
    #[verifier::type_invariant]
    spec fn wf(self) -> bool {
        forall|i: int, j: int|
            0 <= i < self.entries@.len() && 0 <= j < self.entries@.len() && i != j ==> names(
                #[trigger] self.entries@[i],
            ) != names(#[trigger] self.entries@[j])
    }

    /// A map that holds nothing.
    pub fn new() -> (map: Self)
        ensures
            map@ == Map::<Key, T>::empty(),
    {
        NamedMap { entries: Vec::new() }
    }

    /// What stands under the two names.
    pub fn get(&self, instance: &str, name: &str) -> (r: Option<&T>)
        ensures
            match r {
                Some(v) => self@.contains_key((instance@, name@)) && *v == self@[(
                    instance@,
                    name@,
                )],
                None => !self@.contains_key((instance@, name@)),
            },
    {
        proof {
            use_type_invariant(self);
            lemma_entries_map(self.entries@, self.entries@.len(), (instance@, name@));
        }
        let wanted: (String, String) = (instance.to_owned(), name.to_owned());
        for i in 0..self.entries.len()
            invariant
                wanted.0@ == instance@,
                wanted.1@ == name@,
                forall|j: int|
                    0 <= j < i ==> names(#[trigger] self.entries@[j]) != (instance@, name@),
        {
            if self.entries[i].0 == wanted.0 && self.entries[i].1 == wanted.1 {
                proof {
                    use_type_invariant(self);
                    let key = (instance@, name@);
                    lemma_entries_map(self.entries@, self.entries@.len(), key);
                    assert(names(self.entries@[i as int]) == key);
                    assert forall|j: int| 0 <= j < self.entries@.len() && j != i implies names(
                        #[trigger] self.entries@[j],
                    ) != key by {
                        assert(names(self.entries@[j]) != names(self.entries@[i as int]));
                    }
                }
                return Some(&self.entries[i].2);
            }
        }
        None
    }

    /// Put something under the two names, in place of what was there.
    pub fn insert(&mut self, instance: String, name: String, value: T)
        ensures
            final(self)@ == old(self)@.insert((instance@, name@), value),
    {
        proof {
            use_type_invariant(&*self);
        }
        let mut entries: Vec<(String, String, T)> = Vec::new();
        std::mem::swap(&mut entries, &mut self.entries);
        let ghost before = entries@;
        let ghost key = (instance@, name@);
        let mut i: usize = 0;
        while i < entries.len()
            invariant
                entries@ == before,
                old(self)@ == entries_map(before, before.len()),
                i <= before.len(),
                key == (instance@, name@),
                forall|j: int| 0 <= j < i ==> names(#[trigger] before[j]) != key,
                forall|j: int, k: int|
                    0 <= j < before.len() && 0 <= k < before.len() && j != k ==> names(
                        #[trigger] before[j],
                    ) != names(#[trigger] before[k]),
            decreases before.len() - i,
        {
            if entries[i].0 == instance && entries[i].1 == name {
                entries.set(i, (instance, name, value));
                proof {
                    lemma_replaced(before, entries@, i as int, key, value);
                }
                self.entries = entries;
                return ;
            }
            i = i + 1;
        }
        entries.push((instance, name, value));
        proof {
            lemma_entries_map_prefix(before, entries@, before.len());
        }
        self.entries = entries;
    }

    /// All that is in the map, each pair of names with what stands under it.
    pub fn into_entries(self) -> (entries: Vec<(String, String, T)>)
        ensures
            forall|i: int|
                0 <= i < entries@.len() ==> self@.contains_key(names(#[trigger] entries@[i]))
                    && self@[names(entries@[i])] == entries@[i].2,
            forall|key: Key| #[trigger]
                self@.contains_key(key) ==> exists|i: int|
                    0 <= i < entries@.len() && names(#[trigger] entries@[i]) == key,
            forall|i: int, j: int|
                0 <= i < j < entries@.len() ==> names(#[trigger] entries@[i]) != names(
                    #[trigger] entries@[j],
                ),
    {
        proof {
            use_type_invariant(&self);
            let n = self.entries@.len();
            assert forall|i: int| 0 <= i < n implies self@.contains_key(
                names(#[trigger] self.entries@[i]),
            ) && self@[names(self.entries@[i])] == self.entries@[i].2 by {
                let key = names(self.entries@[i]);
                lemma_entries_map(self.entries@, n, key);
                assert forall|j: int| 0 <= j < n && j != i implies #[trigger] names(
                    self.entries@[j],
                ) != key by {
                    assert(names(self.entries@[j]) != names(self.entries@[i]));
                }
            }
            assert forall|key: Key| #[trigger] self@.contains_key(key) implies exists|i: int|
                0 <= i < n && names(#[trigger] self.entries@[i]) == key by {
                lemma_entries_map(self.entries@, n, key);
                let i = choose|i: int| 0 <= i < n && #[trigger] names(self.entries@[i]) == key;
                assert(names(self.entries@[i]) == key);
            }
        }
        self.entries
    }
}

/// Replacing the one entry that has the names.
proof fn lemma_replaced<T>(
    before: Seq<(String, String, T)>,
    after: Seq<(String, String, T)>,
    i: int,
    key: Key,
    value: T,
)
    requires
        0 <= i < before.len() == after.len(),
        names(before[i]) == key,
        names(after[i]) == key,
        after[i].2 == value,
        forall|j: int| 0 <= j < before.len() && j != i ==> after[j] == before[j],
        forall|j: int, k: int|
            0 <= j < before.len() && 0 <= k < before.len() && j != k ==> names(
                #[trigger] before[j],
            ) != names(#[trigger] before[k]),
    ensures
        entries_map(after, after.len()) == entries_map(before, before.len()).insert(key, value),
        forall|j: int, k: int|
            0 <= j < after.len() && 0 <= k < after.len() && j != k ==> names(#[trigger] after[j])
                != names(#[trigger] after[k]),
{
    let n = before.len();
    assert forall|j: int| 0 <= j < n implies names(#[trigger] after[j]) == names(before[j]) by {}
    assert forall|j: int, k: int| 0 <= j < n && 0 <= k < n && j != k implies names(
        #[trigger] after[j],
    ) != names(#[trigger] after[k]) by {
        assert(names(before[j]) != names(before[k]));
    }
    let a = entries_map(after, n);
    let b = entries_map(before, n).insert(key, value);
    assert forall|other: Key| a.contains_key(other) == b.contains_key(other) by {
        lemma_entries_map(after, n, other);
        lemma_entries_map(before, n, other);
        if a.contains_key(other) {
            let j = choose|j: int| 0 <= j < n && #[trigger] names(after[j]) == other;
            assert(names(before[j]) == other);
        }
        if b.contains_key(other) && other != key {
            let j = choose|j: int| 0 <= j < n && #[trigger] names(before[j]) == other;
            assert(names(after[j]) == other);
        }
        if other == key {
            assert(names(after[i]) == key);
        }
    }
    assert forall|other: Key| a.contains_key(other) implies a[other] == b[other] by {
        lemma_entries_map(after, n, other);
        lemma_entries_map(before, n, other);
        let j = choose|j: int| 0 <= j < n && #[trigger] names(after[j]) == other;
        assert forall|k: int| 0 <= k < n && k != j implies #[trigger] names(after[k]) != other by {
            assert(names(after[k]) != names(after[j]));
        }
        assert(names(before[j]) == other);
        assert forall|k: int| 0 <= k < n && k != j implies #[trigger] names(before[k]) != other
            by {
            assert(names(before[k]) != names(before[j]));
        }
    }
    assert(a =~= b);
}

} // verus!
