//! A store in memory.

use crate::cas::{lists_prefix, CasError, CasStore, Revision, StoreView, Versioned};
use crate::ordmap::{lemma_entry, OrdMap};
use crate::text::{has_prefix, starts_with};
use vstd::prelude::*;

verus! {

/// A store in memory. Revisions are numbered across all keys, so a revision tells one
/// write from every other. A store made by [`MemStore::new`] numbers its writes from 1 on,
/// the default store from 0 on.
#[derive(Debug)]
pub struct MemStore<V: Clone> {
    /// The values, by key.
    pub entries: OrdMap<String, Versioned<V>>,
    /// The revision of the next write.
    pub next_revision: Revision,
}

/// Whether every revision is smaller than `next`, and no two keys share one.
pub open spec fn revisions_unique<V>(entries: Map<Seq<char>, Versioned<V>>, next: int) -> bool {
    &&& forall|k: Seq<char>| #[trigger] entries.dom().contains(k) ==> entries[k].revision < next
    &&& forall|a: Seq<char>, b: Seq<char>|
        (#[trigger] entries.dom().contains(a)) && (#[trigger] entries.dom().contains(b)) && a != b
            ==> entries[a].revision != entries[b].revision
}

impl<V: Clone> Default for MemStore<V> {
    /// A store that holds nothing and gives its first write the revision 0.
    fn default() -> (r: Self)
        ensures
            r.valid(),
            r.held() == StoreView::<V>::fresh(0),
            r.entries.entries@.len() == 0,
    {
        MemStore { entries: OrdMap::new(), next_revision: 0 }
    }
}

impl<V: Clone> MemStore<V> {
    /// A store that holds nothing and gives its first write the revision 1.
    pub fn new() -> (r: Self)
        ensures
            r.valid(),
            r.held() == StoreView::<V>::fresh(1),
            r.entries.entries@.len() == 0,
    {
        MemStore { entries: OrdMap::new(), next_revision: 1 }
    }

    /// The number of keys.
    pub fn len(&self) -> (r: usize)
        ensures
            r == self.entries.entries@.len(),
    {
        self.entries.len()
    }

    /// Whether there is no key.
    pub fn is_empty(&self) -> (r: bool)
        ensures
            r == (self.entries.entries@.len() == 0),
    {
        self.entries.is_empty()
    }

    /// The revision of the last write; 0 before the first one.
    pub fn revision(&self) -> (r: Revision)
        ensures
            r == if self.next_revision == 0 {
                0
            } else {
                self.next_revision - 1
            },
    {
        if self.next_revision == 0 {
            0
        } else {
            self.next_revision - 1
        }
    }

    /// The revision of this write.
    fn bump(&mut self) -> (r: Revision)
        requires
            old(self).next_revision < u64::MAX,
        ensures
            r == old(self).next_revision,
            final(self).next_revision == old(self).next_revision + 1,
            final(self).entries == old(self).entries,
    {
        let r = self.next_revision;
        self.next_revision = r + 1;
        r
    }

    /// Writes `value` under `key`.
    fn write(&mut self, key: &str, value: V) -> (r: Versioned<V>)
        requires
            old(self).valid(),
            old(self).has_room(),
        ensures
            final(self).valid(),
            final(self).held() == old(self).held().written(key@, value),
            cloned(value, r.value),
            r.revision == old(self).held().next,
    {
        let copy = value.clone();
        let revision = self.bump();
        self.entries.insert(key.to_owned(), Versioned { value, revision });
        Versioned { value: copy, revision }
    }
}

impl<V: Clone> CasStore<V> for MemStore<V> {
    open spec fn held(&self) -> StoreView<V> {
        StoreView { entries: self.entries.map(), next: self.next_revision as int }
    }

    open spec fn valid(&self) -> bool {
        &&& self.entries.wf()
        &&& revisions_unique(self.entries.map(), self.next_revision as int)
    }

    open spec fn has_room(&self) -> bool {
        self.next_revision < u64::MAX
    }

    fn get(&self, key: &str) -> (r: Option<Versioned<V>>) {
        match self.entries.lookup(key) {
            Some(v) => Some(Versioned { value: v.value.clone(), revision: v.revision }),
            None => None,
        }
    }

    fn create(&mut self, key: &str, value: V) -> (r: Result<Versioned<V>, CasError>) {
        if self.entries.lookup(key).is_some() {
            return Err(CasError::AlreadyExists);
        }
        Ok(self.write(key, value))
    }

    fn update(&mut self, key: &str, value: V, revision: Revision) -> (r: Result<
        Versioned<V>,
        CasError,
    >) {
        match self.entries.lookup(key) {
            None => return Err(CasError::NotFound),
            Some(existing) => {
                if existing.revision != revision {
                    return Err(
                        CasError::Conflict {
                            expected: revision,
                            actual: Some(existing.revision),
                        },
                    );
                }
            },
        }
        Ok(self.write(key, value))
    }

    fn delete(&mut self, key: &str, revision: Revision) -> (r: Result<(), CasError>) {
        match self.entries.lookup(key) {
            None => return Err(CasError::NotFound),
            Some(existing) => {
                if existing.revision != revision {
                    return Err(
                        CasError::Conflict {
                            expected: revision,
                            actual: Some(existing.revision),
                        },
                    );
                }
            },
        }
        let key = key.to_owned();
        let _ = self.entries.remove(&key);
        Ok(())
    }

    fn list(&self, prefix: &str) -> (r: Vec<Versioned<V>>) {
        let mut out: Vec<Versioned<V>> = Vec::new();
        let ghost all = self.entries.entries@;
        let ghost mut at: Seq<int> = Seq::empty();
        for i in 0..self.entries.entries.len()
            invariant
                all == self.entries.entries@,
                at.len() == out@.len(),
                forall|j: int|
                    0 <= j < at.len() ==> 0 <= #[trigger] at[j] < i && has_prefix(
                        all[at[j]].0@,
                        prefix@,
                    ) && cloned(all[at[j]].1.value, out@[j].value) && out@[j].revision
                        == all[at[j]].1.revision,
                forall|j: int, k: int| 0 <= j < k < at.len() ==> #[trigger] at[j] < #[trigger] at[k],
                forall|m: int|
                    0 <= m < i && has_prefix((#[trigger] all[m]).0@, prefix@) ==> at.contains(m),
        {
            let e = &self.entries.entries[i];
            if starts_with(e.0.as_str(), prefix) {
                let ghost before = at;
                out.push(Versioned { value: e.1.value.clone(), revision: e.1.revision });
                proof {
                    at = at.push(i as int);
                    assert forall|m: int|
                        0 <= m < i + 1 && has_prefix((#[trigger] all[m]).0@, prefix@) implies at.contains(m) by {
                        if m < i {
                            let j = before.index_of(m);
                            assert(at[j] == m);
                        } else {
                            assert(at[before.len() as int] == m);
                        }
                    }
                }
            }
        }
        proof {
            let held = self.held();
            let keys = Seq::new(at.len(), |j: int| all[at[j]].0@);
            assert forall|j: int, k: int| 0 <= j < k < keys.len() implies keys[j] != keys[k] by {
                lemma_entry(all, at[j]);
                lemma_entry(all, at[k]);
            }
            assert forall|k: Seq<char>| #[trigger]
                keys.contains(k) <==> held.entries.dom().contains(k) && has_prefix(k, prefix@) by {
                if keys.contains(k) {
                    let j = keys.index_of(k);
                    lemma_entry(all, at[j]);
                }
                if held.entries.dom().contains(k) && has_prefix(k, prefix@) {
                    let m = crate::ordmap::key_index(all, k);
                    assert(all[m].0.deep_view() == k);
                    assert(at.contains(m));
                    let j = at.index_of(m);
                    assert(keys[j] == k);
                }
            }
            assert forall|i: int| 0 <= i < out@.len() implies cloned(
                held.entries[keys[i]].value,
                (#[trigger] out@[i]).value,
            ) && out@[i].revision == held.entries[keys[i]].revision by {
                lemma_entry(all, at[i]);
            }
            assert(lists_prefix(held, prefix@, keys, out@));
        }
        out
    }
}

} // verus!
