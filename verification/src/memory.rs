//! A backend that keeps its entries in memory.

use serde_json::Value;
use vstd::prelude::*;

use crate::error::Error;
use crate::key::{Key, KeyModel, Scope};
use crate::store;
use crate::store::{Answered, KeyValueStoreBackend, Request};

verus! {

/// A key and the value under it.
struct Entry {
    key: Key,
    value: Value,
}

/// Whether the entry at position `i` has this key.
spec fn has_key(entries: Seq<Entry>, i: int, key: KeyModel) -> bool {
    0 <= i < entries.len() && entries[i].key@ == key
}

/// Whether no key occurs twice.
spec fn distinct_keys(entries: Seq<Entry>) -> bool {
    forall|i: int, j: int|
        0 <= i < j < entries.len() ==> (#[trigger] entries[i]).key@ != (#[trigger] entries[j]).key@
}

/// The entries as a map.
spec fn as_map(entries: Seq<Entry>) -> Map<KeyModel, Value> {
    Map::new(
        |key: KeyModel| exists|i: int| has_key(entries, i, key),
        |key: KeyModel| entries[choose|i: int| has_key(entries, i, key)].value,
    )
}

/// An entry is found in the map under its key.
proof fn lemma_as_map(entries: Seq<Entry>, i: int)
    requires
        distinct_keys(entries),
        0 <= i < entries.len(),
    ensures
        as_map(entries).contains_key(entries[i].key@),
        as_map(entries)[entries[i].key@] == entries[i].value,
{
    let key = entries[i].key@;
    assert(has_key(entries, i, key));
    let j = choose|j: int| has_key(entries, j, key);
    assert(has_key(entries, j, key));
    assert(i == j);
}

/// Two maps of entries are equal when each key of one has its value in the other.
proof fn lemma_same_map(entries: Seq<Entry>, map: Map<KeyModel, Value>)
    requires
        distinct_keys(entries),
        forall|i: int|
            0 <= i < entries.len() ==> map.contains_key((#[trigger] entries[i]).key@)
                && map[entries[i].key@] == entries[i].value,
        forall|key: KeyModel| #[trigger]
            map.contains_key(key) ==> exists|i: int| has_key(entries, i, key),
    ensures
        as_map(entries) == map,
{
    assert forall|key: KeyModel| as_map(entries).contains_key(key) implies map.contains_key(key)
        && #[trigger] as_map(entries)[key] == map[key] by {
        let i = choose|i: int| has_key(entries, i, key);
        assert(has_key(entries, i, key));
        lemma_as_map(entries, i);
    }
    assert(as_map(entries) =~= map);
}

/// Entries in memory, in no particular order. No key occurs twice.
pub struct Memory {
    items: Vec<Entry>,
    record: Ghost<Seq<Answered>>,
}

impl Memory {
    #[verifier::type_invariant]
    spec fn well_formed(self) -> bool {
        distinct_keys(self.items@)
    }

    /// A backend without entries.
    pub fn new() -> (memory: Self)
        ensures
            memory.entries() == Map::<KeyModel, Value>::empty(),
            memory.requests() == Seq::<Answered>::empty(),
    {
        let memory = Memory { items: Vec::new(), record: Ghost(Seq::empty()) };
        assert(memory.entries() =~= Map::<KeyModel, Value>::empty());
        memory
    }

    /// The position of the entry under a key.
    fn find(&self, key: &Key) -> (position: Option<usize>)
        ensures
            match position {
                Some(i) => {
                    &&& i < self.items@.len()
                    &&& self.items@[i as int].key@ == key@
                    &&& self.entries().contains_key(key@)
                    &&& self.entries()[key@] == self.items@[i as int].value
                },
                None => {
                    &&& !self.entries().contains_key(key@)
                    &&& forall|i: int| !has_key(self.items@, i, key@)
                },
            },
    {
        proof {
            use_type_invariant(self);
        }
        let mut i: usize = 0;
        while i < self.items.len()
            invariant
                i <= self.items@.len(),
                distinct_keys(self.items@),
                forall|j: int| 0 <= j < i ==> (#[trigger] self.items@[j]).key@ != key@,
            decreases self.items@.len() - i,
        {
            if self.items[i].key == *key {
                proof {
                    lemma_as_map(self.items@, i as int);
                }
                return Some(i);
            }
            i = i + 1;
        }
        None
    }

    /// Takes the entry at a position out.
    fn take(&mut self, i: usize) -> (value: Value)
        requires
            i < old(self).items@.len(),
        ensures
            value == old(self).items@[i as int].value,
            final(self).entries() == old(self).entries().remove(old(self).items@[i as int].key@),
            final(self).requests() == old(self).requests(),
    {
        proof {
            use_type_invariant(&*self);
        }
        let mut items: Vec<Entry> = Vec::new();
        std::mem::swap(&mut items, &mut self.items);
        let ghost before = items@;
        let entry = items.remove(i);
        proof {
            let map = as_map(before).remove(entry.key@);
            assert forall|j: int| 0 <= j < items@.len() implies map.contains_key(
                (#[trigger] items@[j]).key@,
            ) && map[items@[j].key@] == items@[j].value by {
                let k = if j < i { j } else { j + 1 };
                assert(items@[j] == before[k]);
                lemma_as_map(before, k);
                assert(before[k].key@ != before[i as int].key@);
            }
            assert forall|key: KeyModel| #[trigger] map.contains_key(key) implies exists|j: int|
                has_key(items@, j, key) by {
                let k = choose|k: int| has_key(before, k, key);
                assert(has_key(before, k, key));
                if k < i {
                    assert(has_key(items@, k, key));
                } else {
                    assert(has_key(items@, k - 1, key));
                }
            }
            lemma_same_map(items@, map);
        }
        self.items = items;
        entry.value
    }

    /// Puts a value under a key, in place of the one that was there.
    fn put(&mut self, key: &Key, value: Value)
        ensures
            final(self).entries() == old(self).entries().insert(key@, value),
            final(self).requests() == old(self).requests(),
    {
        if let Some(i) = self.find(key) {
            let _ = self.take(i);
        }
        let ghost kept = self.entries();
        proof {
            use_type_invariant(&*self);
            assert(!kept.contains_key(key@));
        }
        let mut items: Vec<Entry> = Vec::new();
        std::mem::swap(&mut items, &mut self.items);
        let ghost before = items@;
        items.push(Entry { key: key.clone(), value });
        proof {
            let map = as_map(before).insert(key@, value);
            let last = before.len() as int;
            assert forall|j: int| 0 <= j < last implies (#[trigger] items@[j]).key@ != key@ by {
                assert(items@[j] == before[j]);
                lemma_as_map(before, j);
                assert(kept.contains_key(before[j].key@));
            }
            assert forall|j: int| 0 <= j < items@.len() implies map.contains_key(
                (#[trigger] items@[j]).key@,
            ) && map[items@[j].key@] == items@[j].value by {
                if j < last {
                    assert(items@[j] == before[j]);
                    lemma_as_map(before, j);
                }
            }
            assert forall|k: KeyModel| #[trigger] map.contains_key(k) implies exists|j: int|
                has_key(items@, j, k) by {
                if k == key@ {
                    assert(has_key(items@, last, k));
                } else {
                    let j = choose|j: int| has_key(before, j, k);
                    assert(has_key(before, j, k));
                    assert(has_key(items@, j, k));
                }
            }
            lemma_same_map(items@, map);
            assert(map =~= old(self).entries().insert(key@, value));
        }
        self.items = items;
    }

    /// The keys in exactly this scope.
    fn keys_in(&self, scope: &Scope) -> (keys: Vec<Key>)
        ensures
            store::is_listing(store::models(keys@), self.entries(), scope@),
    {
        proof {
            use_type_invariant(self);
        }
        let mut keys: Vec<Key> = Vec::new();
        let mut i: usize = 0;
        while i < self.items.len()
            invariant
                i <= self.items@.len(),
                distinct_keys(self.items@),
                store::models(keys@).no_duplicates(),
                forall|key: KeyModel| #[trigger]
                    store::models(keys@).contains(key) <==> key.scope == scope@ && exists|j: int|
                        j < i && has_key(self.items@, j, key),
            decreases self.items@.len() - i,
        {
            let key = &self.items[i].key;
            let ghost before = store::models(keys@);
            if *key.scope() == *scope {
                keys.push(key.clone());
                proof {
                    let after = store::models(keys@);
                    assert(after =~= before.push(key@));
                    assert(!before.contains(key@)) by {
                        if before.contains(key@) {
                            let j = choose|j: int| j < i && has_key(self.items@, j, key@);
                            assert(has_key(self.items@, j, key@));
                        }
                    }
                    assert forall|k: KeyModel| #[trigger] after.contains(k) <==> k.scope == scope@
                        && exists|j: int| j < i + 1 && has_key(self.items@, j, k) by {
                        if k == key@ {
                            assert(after[before.len() as int] == k);
                            assert(has_key(self.items@, i as int, k));
                        } else {
                            if after.contains(k) {
                                let p = choose|p: int| 0 <= p < after.len() && after[p] == k;
                                assert(before[p] == k);
                                assert(before.contains(k));
                            }
                            if before.contains(k) {
                                let p = choose|p: int| 0 <= p < before.len() && before[p] == k;
                                assert(after[p] == k);
                            }
                        }
                    }
                }
            }
            i = i + 1;
        }
        keys
    }

    /// Enters a request in the record.
    fn note(&mut self, answered: Ghost<Answered>)
        ensures
            final(self).entries() == old(self).entries(),
            final(self).requests() == old(self).requests().push(answered@),
    {
        proof {
            use_type_invariant(&*self);
        }
        self.record = Ghost(self.record@.push(answered@));
    }
}

impl KeyValueStoreBackend for Memory {
    closed spec fn entries(&self) -> Map<KeyModel, Value> {
        as_map(self.items@)
    }

    open spec fn refusals(&self) -> Set<Error> {
        Set::empty()
    }

    closed spec fn requests(&self) -> Seq<Answered> {
        self.record@
    }

    fn list_keys(&mut self, scope: &Scope) -> (result: Result<Vec<Key>, Error>) {
        let result = Ok(self.keys_in(scope));
        self.note(
            Ghost(
                Answered {
                    request: Request::List { scope: scope@ },
                    reply: store::listed(result),
                },
            ),
        );
        result
    }

    fn get(&mut self, key: &Key) -> (result: Result<Option<Value>, Error>) {
        let result = match self.find(key) {
            Some(i) => Ok(Some(self.items[i].value.clone())),
            None => Ok(None),
        };
        self.note(
            Ghost(Answered { request: Request::Get { key: key@ }, reply: store::found(result) }),
        );
        result
    }

    fn store(&mut self, key: &Key, value: Value) -> (result: Result<(), Error>) {
        self.put(key, value);
        let result = Ok(());
        self.note(
            Ghost(
                Answered {
                    request: Request::Store { key: key@, value },
                    reply: store::done(result),
                },
            ),
        );
        result
    }

    fn move_value(&mut self, from: &Key, to: &Key) -> (result: Result<(), Error>) {
        let result = match self.find(from) {
            Some(i) => {
                let value = self.take(i);
                self.put(to, value);
                Ok(())
            },
            None => Err(Error::UnknownKey),
        };
        self.note(
            Ghost(
                Answered {
                    request: Request::Move { from: from@, to: to@ },
                    reply: store::done(result),
                },
            ),
        );
        result
    }

    fn delete(&mut self, key: &Key) -> (result: Result<(), Error>) {
        let result = match self.find(key) {
            Some(i) => {
                let _ = self.take(i);
                Ok(())
            },
            None => Err(Error::UnknownKey),
        };
        self.note(
            Ghost(Answered { request: Request::Delete { key: key@ }, reply: store::done(result) }),
        );
        result
    }
}

} // verus!
