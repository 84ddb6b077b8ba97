//! Conditional updates: what every store promises.

use crate::text::{decimal, decimal_text, has_prefix};
use vstd::prelude::*;

verus! {

/// The version of a stored value; it grows with every write.
pub type Revision = u64;

/// A stored value with its revision.
#[derive(Debug, PartialEq, Eq)]
pub struct Versioned<V> {
    /// The value.
    pub value: V,
    /// The revision of the write that stored it.
    pub revision: Revision,
}

impl<V: Clone> Clone for Versioned<V> {
    fn clone(&self) -> (r: Self)
        ensures
            cloned(self.value, r.value),
            r.revision == self.revision,
    {
        Versioned { value: self.value.clone(), revision: self.revision }
    }
}

/// Why a store refused.
#[derive(Debug, PartialEq, Eq)]
pub enum CasError {
    /// There is nothing under the key.
    NotFound,
    /// There is something under the key already.
    AlreadyExists,
    /// The stored revision is not the expected one.
    Conflict { expected: Revision, actual: Option<Revision> },
    /// The store itself failed.
    Backend(String),
}

impl Clone for CasError {
    fn clone(&self) -> (r: Self)
        ensures
            r == *self,
    {
        match self {
            CasError::NotFound => CasError::NotFound,
            CasError::AlreadyExists => CasError::AlreadyExists,
            CasError::Conflict { expected, actual } => CasError::Conflict {
                expected: *expected,
                actual: *actual,
            },
            CasError::Backend(s) => CasError::Backend(s.clone()),
        }
    }
}

impl CasError {
    /// The refusal in words.
    pub open spec fn words(self) -> Seq<char> {
        match self {
            CasError::NotFound => "resource does not exist"@,
            CasError::AlreadyExists => "resource already exists"@,
            CasError::Conflict { expected, actual } => "update conflict: expected revision "@
                + decimal(expected as nat) + ", store has "@ + (match actual {
                Some(a) => "Some("@ + decimal(a as nat) + ")"@,
                None => "None"@,
            }),
            CasError::Backend(s) => "datastore backend error: "@ + s@,
        }
    }

    /// The refusal in words.
    pub fn text(&self) -> (r: String)
        ensures
            r@ == self.words(),
    {
        match self {
            CasError::NotFound => "resource does not exist".to_owned(),
            CasError::AlreadyExists => "resource already exists".to_owned(),
            CasError::Conflict { expected, actual } => {
                let mut s = "update conflict: expected revision ".to_owned();
                s.push_str(decimal_text(*expected).as_str());
                s.push_str(", store has ");
                let mut a = match actual {
                    Some(a) => {
                        let mut t = "Some(".to_owned();
                        t.push_str(decimal_text(*a).as_str());
                        t.push_str(")");
                        t
                    },
                    None => "None".to_owned(),
                };
                s.push_str(a.as_str());
                s
            },
            CasError::Backend(e) => {
                let mut s = "datastore backend error: ".to_owned();
                s.push_str(e.as_str());
                s
            },
        }
    }
}

/// What a store holds, with the number of the next write.
#[verifier::ext_equal]
pub struct StoreView<V> {
    /// The values, by key.
    pub entries: Map<Seq<char>, Versioned<V>>,
    /// The revision of the next write.
    pub next: int,
}

impl<V> StoreView<V> {
    /// Why a conditional change of `key` is refused at `revision`, if it is.
    pub open spec fn refusal(self, key: Seq<char>, revision: Revision) -> Option<CasError> {
        if !self.entries.dom().contains(key) {
            Some(CasError::NotFound)
        } else if self.entries[key].revision != revision {
            Some(
                CasError::Conflict {
                    expected: revision,
                    actual: Some(self.entries[key].revision),
                },
            )
        } else {
            None
        }
    }

    /// What is held after `value` is written under `key`.
    pub open spec fn written(self, key: Seq<char>, value: V) -> StoreView<V> {
        StoreView {
            entries: self.entries.insert(
                key,
                Versioned { value, revision: self.next as u64 },
            ),
            next: self.next + 1,
        }
    }

    /// What is held after `key` is deleted.
    pub open spec fn deleted(self, key: Seq<char>) -> StoreView<V> {
        StoreView { entries: self.entries.remove(key), ..self }
    }
}

/// Whether `r` is a copy of the values under the keys `keys`, which are those that start
/// with `prefix`, each once.
pub open spec fn lists_prefix<V: Clone>(
    held: StoreView<V>,
    prefix: Seq<char>,
    keys: Seq<Seq<char>>,
    r: Seq<Versioned<V>>,
) -> bool {
    &&& keys.no_duplicates()
    &&& keys.len() == r.len()
    &&& forall|k: Seq<char>| #[trigger]
        keys.contains(k) <==> held.entries.dom().contains(k) && has_prefix(k, prefix)
    &&& forall|i: int|
        0 <= i < r.len() ==> cloned(held.entries[keys[i]].value, (#[trigger] r[i]).value)
            && r[i].revision == held.entries[keys[i]].revision
}

/// A store of values under texts, with conditional updates and deletions.
pub trait CasStore<V: Clone>: Sized {
    /// What the store holds.
    spec fn held(&self) -> StoreView<V>;

    /// Whether the store is well-formed.
    spec fn valid(&self) -> bool;

    /// Whether the store can number another write.
    spec fn has_room(&self) -> bool;

    /// The value under `key`, with its revision.
    fn get(&self, key: &str) -> (r: Option<Versioned<V>>)
        requires
            self.valid(),
        ensures
            match r {
                Some(v) => self.held().entries.dom().contains(key@) && cloned(
                    self.held().entries[key@].value,
                    v.value,
                ) && v.revision == self.held().entries[key@].revision,
                None => !self.held().entries.dom().contains(key@),
            },
    ;

    /// Stores `value` under `key`, where there is nothing yet.
    fn create(&mut self, key: &str, value: V) -> (r: Result<Versioned<V>, CasError>)
        requires
            old(self).valid(),
            old(self).has_room(),
        ensures
            final(self).valid(),
            match r {
                Ok(v) => !old(self).held().entries.dom().contains(key@) && final(self).held()
                    == old(self).held().written(key@, value) && cloned(value, v.value) && v.revision
                    == old(self).held().next,
                Err(e) => old(self).held().entries.dom().contains(key@) && e
                    == CasError::AlreadyExists && final(self).held() == old(self).held(),
            },
            final(self).held() == old(self).held().performed(
                StoreOp::Create { key: key@, value },
            ),
    ;

    /// Replaces what is under `key` by `value`, where its revision is the given one.
    fn update(&mut self, key: &str, value: V, revision: Revision) -> (r: Result<
        Versioned<V>,
        CasError,
    >)
        requires
            old(self).valid(),
            old(self).has_room(),
        ensures
            final(self).valid(),
            match r {
                Ok(v) => old(self).held().refusal(key@, revision) is None && final(self).held()
                    == old(self).held().written(key@, value) && cloned(value, v.value) && v.revision
                    == old(self).held().next,
                Err(e) => old(self).held().refusal(key@, revision) == Some(e) && final(self).held()
                    == old(self).held(),
            },
            final(self).held() == old(self).held().performed(
                StoreOp::Update { key: key@, value, revision },
            ),
    ;

    /// Deletes what is under `key`, where its revision is the given one.
    fn delete(&mut self, key: &str, revision: Revision) -> (r: Result<(), CasError>)
        requires
            old(self).valid(),
        ensures
            final(self).valid(),
            match r {
                Ok(_) => old(self).held().refusal(key@, revision) is None && final(self).held()
                    == old(self).held().deleted(key@),
                Err(e) => old(self).held().refusal(key@, revision) == Some(e) && final(self).held()
                    == old(self).held(),
            },
            final(self).held() == old(self).held().performed(
                StoreOp::Delete { key: key@, revision },
            ),
    ;

    /// The values whose keys start with `prefix`, in no particular order.
    fn list(&self, prefix: &str) -> (r: Vec<Versioned<V>>)
        requires
            self.valid(),
        ensures
            exists|keys: Seq<Seq<char>>| lists_prefix(self.held(), prefix@, keys, r@),
    ;
}

/// One conditional change of a store.
pub enum StoreOp<V> {
    /// Store a value where there is nothing yet.
    Create { key: Seq<char>, value: V },
    /// Replace a value of the given revision.
    Update { key: Seq<char>, value: V, revision: Revision },
    /// Delete a value of the given revision.
    Delete { key: Seq<char>, revision: Revision },
}

impl<V> StoreView<V> {
    /// A store that holds nothing and has not been written to, and that numbers its writes
    /// from `first` on.
    pub open spec fn fresh(first: u64) -> StoreView<V> {
        StoreView { entries: Map::empty(), next: first as int }
    }

    /// Whether a change is made; else it is refused.
    pub open spec fn accepts(self, op: StoreOp<V>) -> bool {
        match op {
            StoreOp::Create { key, value: _ } => !self.entries.dom().contains(key),
            StoreOp::Update { key, value: _, revision } => self.refusal(key, revision) is None,
            StoreOp::Delete { key, revision } => self.refusal(key, revision) is None,
        }
    }

    /// Whether a change is a write that is made.
    pub open spec fn writes(self, op: StoreOp<V>) -> bool {
        self.accepts(op) && !(op is Delete)
    }

    /// What is held after a change was asked for.
    pub open spec fn performed(self, op: StoreOp<V>) -> StoreView<V> {
        if !self.accepts(op) {
            self
        } else {
            match op {
                StoreOp::Create { key, value } => self.written(key, value),
                StoreOp::Update { key, value, revision: _ } => self.written(key, value),
                StoreOp::Delete { key, revision: _ } => self.deleted(key),
            }
        }
    }

    /// What is held after the first `n` changes were asked for.
    pub open spec fn performed_first(self, ops: Seq<StoreOp<V>>, n: nat) -> StoreView<V>
        decreases n,
    {
        if n == 0 {
            self
        } else {
            self.performed_first(ops, (n - 1) as nat).performed(ops[n - 1])
        }
    }

    /// How many of the first `n` changes are writes that are made.
    pub open spec fn writes_first(self, ops: Seq<StoreOp<V>>, n: nat) -> nat
        decreases n,
    {
        if n == 0 {
            0
        } else {
            self.writes_first(ops, (n - 1) as nat) + if self.performed_first(
                ops,
                (n - 1) as nat,
            ).writes(ops[n - 1]) {
                1nat
            } else {
                0nat
            }
        }
    }
}

/// The revision counts the successful writes: after any changes the number of the next write
/// is the first number and as many more as there were. What is stored has a revision that
/// was given out, which is at least the first one.
pub proof fn law_revision_counts_writes<V>(first: u64, ops: Seq<StoreOp<V>>, n: nat)
    requires
        first + n <= u64::MAX,
    ensures
        ({
            let s = StoreView::<V>::fresh(first).performed_first(ops, n);
            &&& s.next == first + StoreView::<V>::fresh(first).writes_first(ops, n)
            &&& s.next <= first + n
            &&& forall|k: Seq<char>| #[trigger]
                s.entries.dom().contains(k) ==> first <= s.entries[k].revision < s.next
        }),
    decreases n,
{
    if n > 0 {
        law_revision_counts_writes(first, ops, (n - 1) as nat);
    }
}

/// The number of the next write never falls.
proof fn lemma_next_grows<V>(first: u64, ops: Seq<StoreOp<V>>, i: nat, j: nat)
    requires
        i <= j,
    ensures
        StoreView::<V>::fresh(first).performed_first(ops, i).next
            <= StoreView::<V>::fresh(first).performed_first(ops, j).next,
    decreases j,
{
    if i < j {
        lemma_next_grows(first, ops, i, (j - 1) as nat);
    }
}

/// No two successful writes, be it to one key or to two, get the same revision.
pub proof fn law_no_two_writes_share_a_revision<V>(
    first: u64,
    ops: Seq<StoreOp<V>>,
    i: nat,
    j: nat,
)
    requires
        i < j,
        first + j <= u64::MAX,
        StoreView::<V>::fresh(first).performed_first(ops, i).writes(ops[i as int]),
    ensures
        (StoreView::<V>::fresh(first).performed_first(ops, i).next as u64) < (StoreView::<
            V,
        >::fresh(first).performed_first(ops, j).next as u64),
{
    let s = StoreView::<V>::fresh(first);
    assert(s.performed_first(ops, i + 1) == s.performed_first(ops, i).performed(ops[i as int]));
    lemma_next_grows(first, ops, i + 1, j);
    law_revision_counts_writes(first, ops, i);
    law_revision_counts_writes(first, ops, j);
}

/// A revision that was read before a key was deleted is refused ever after, also once there
/// is something under the key again.
pub proof fn law_revision_does_not_outlive_deletion<V>(
    first: u64,
    ops: Seq<StoreOp<V>>,
    read: nat,
    gone: nat,
    later: nat,
    key: Seq<char>,
)
    requires
        read <= gone <= later,
        first + later <= u64::MAX,
        StoreView::<V>::fresh(first).performed_first(ops, read).entries.dom().contains(key),
        !StoreView::<V>::fresh(first).performed_first(ops, gone).entries.dom().contains(key),
    ensures
        StoreView::<V>::fresh(first).performed_first(ops, later).refusal(
            key,
            StoreView::<V>::fresh(first).performed_first(ops, read).entries[key].revision,
        ) is Some,
{
    law_revision_counts_writes(first, ops, read);
    lemma_next_grows(first, ops, read, gone);
    lemma_stored_after(first, ops, gone, later, key);
}

/// What is stored under a key that was empty was written since.
proof fn lemma_stored_after<V>(
    first: u64,
    ops: Seq<StoreOp<V>>,
    gone: nat,
    later: nat,
    key: Seq<char>,
)
    requires
        gone <= later,
        first + later <= u64::MAX,
        !StoreView::<V>::fresh(first).performed_first(ops, gone).entries.dom().contains(key),
    ensures
        ({
            let s = StoreView::<V>::fresh(first).performed_first(ops, later);
            s.entries.dom().contains(key) ==> s.entries[key].revision
                >= StoreView::<V>::fresh(first).performed_first(ops, gone).next
        }),
    decreases later,
{
    if gone < later {
        lemma_stored_after(first, ops, gone, (later - 1) as nat, key);
        lemma_next_grows(first, ops, gone, (later - 1) as nat);
        law_revision_counts_writes(first, ops, (later - 1) as nat);
    }
}

/// What is written under a key is what is read there, and nothing else changes.
pub proof fn law_read_gives_back_write<V>(s: StoreView<V>, key: Seq<char>, value: V)
    ensures
        s.written(key, value).entries.dom().contains(key),
        s.written(key, value).entries[key].value == value,
        s.written(key, value).entries[key].revision == s.next as u64,
        forall|k: Seq<char>|
            k != key ==> (#[trigger] s.written(key, value).entries.dom().contains(k)
                <==> s.entries.dom().contains(k)) && s.written(key, value).entries[k]
                == s.entries[k],
{
}

/// A revision that a write has overtaken is refused, with the revision that is stored.
pub proof fn law_stale_revision_conflicts<V>(s: StoreView<V>, key: Seq<char>, value: V, stale: Revision)
    requires
        stale < s.next <= u64::MAX,
    ensures
        s.written(key, value).refusal(key, stale) == Some(
            CasError::Conflict { expected: stale, actual: Some(s.next as u64) },
        ),
{
}

/// The revision of a write is accepted until the next one.
pub proof fn law_current_revision_is_accepted<V>(s: StoreView<V>, key: Seq<char>, value: V)
    ensures
        s.written(key, value).refusal(key, s.next as u64) is None,
{
}

/// What is deleted is gone, whatever revision is asked for, and nothing else changes.
pub proof fn law_deleted_is_gone<V>(s: StoreView<V>, key: Seq<char>, revision: Revision)
    ensures
        s.deleted(key).refusal(key, revision) == Some(CasError::NotFound),
        forall|k: Seq<char>|
            k != key ==> (#[trigger] s.deleted(key).entries.dom().contains(k)
                <==> s.entries.dom().contains(k)) && s.deleted(key).entries[k] == s.entries[k],
{
}

} // verus!
