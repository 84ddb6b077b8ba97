//! What is wanted against what has been programmed.
//!
//! A tracker holds both sides and lists what differs, so that only the difference is
//! programmed.

use crate::ordmap::{lemma_entry, OrdMap};
use crate::text::views;
use vstd::prelude::*;

verus! {

broadcast use crate::text::lemma_views_push;

/// A set of strings, listed in ascending order.
pub type StrSet = OrdMap<String, ()>;

/// The keys of an ordered map of strings, ascending.
pub open spec fn key_list<V>(m: OrdMap<String, V>) -> Seq<Seq<char>> {
    Seq::new(m.entries@.len(), |i: int| m.entries@[i].0@)
}

/// The set of the given strings.
pub open spec fn set_of(v: Seq<String>) -> Set<Seq<char>> {
    Set::new(|x: Seq<char>| exists|i: int| 0 <= i < v.len() && (#[trigger] v[i])@ == x)
}

/// Those of the first `n` items that `have` does not hold.
pub open spec fn missing_first(items: Seq<Seq<char>>, have: Set<Seq<char>>, n: nat) -> Seq<
    Seq<char>,
>
    decreases n,
{
    if n == 0 {
        Seq::empty()
    } else {
        let head = missing_first(items, have, (n - 1) as nat);
        if have.contains(items[n - 1]) {
            head
        } else {
            head.push(items[n - 1])
        }
    }
}

/// Those of the items that `have` does not hold, in order.
pub open spec fn missing(items: Seq<Seq<char>>, have: Set<Seq<char>>) -> Seq<Seq<char>> {
    missing_first(items, have, items.len())
}

/// Nothing is missing exactly where every item is held.
pub proof fn lemma_missing_none(items: Seq<Seq<char>>, have: Set<Seq<char>>, n: nat)
    requires
        n <= items.len(),
    ensures
        missing_first(items, have, n).len() == 0 <==> forall|i: int|
            0 <= i < n ==> have.contains(#[trigger] items[i]),
        missing_first(items, have, n).len() <= n,
    decreases n,
{
    if n > 0 {
        lemma_missing_none(items, have, (n - 1) as nat);
        if missing_first(items, have, n).len() == 0 {
            assert(have.contains(items[n - 1]));
            assert forall|i: int| 0 <= i < n implies have.contains(#[trigger] items[i]) by {
                if i == n - 1 {
                } else {
                    assert(missing_first(items, have, (n - 1) as nat).len() == 0);
                }
            }
        }
        if forall|i: int| 0 <= i < n ==> have.contains(#[trigger] items[i]) {
            assert(have.contains(items[n - 1]));
        }
    }
}

/// An item is missing exactly where it is listed and not held.
pub proof fn lemma_missing_contains(items: Seq<Seq<char>>, have: Set<Seq<char>>, n: nat, x: Seq<char>)
    requires
        n <= items.len(),
    ensures
        missing_first(items, have, n).contains(x) <==> items.take(n as int).contains(x)
            && !have.contains(x),
    decreases n,
{
    if n == 0 {
        assert(!missing_first(items, have, n).contains(x));
        assert(items.take(0).len() == 0);
    } else {
        let m = (n - 1) as nat;
        lemma_missing_contains(items, have, m, x);
        let head = missing_first(items, have, m);
        let y = items[n - 1];
        assert(items.take(n as int) =~= items.take(m as int).push(y));
        assert(items.take(n as int).contains(x) <==> items.take(m as int).contains(x) || x == y) by {
            if items.take(n as int).contains(x) {
                let i = items.take(n as int).index_of(x);
                if i < m {
                    assert(items.take(m as int)[i] == x);
                }
            }
            if items.take(m as int).contains(x) {
                let i = items.take(m as int).index_of(x);
                assert(items.take(n as int)[i] == x);
            }
            assert(items.take(n as int)[m as int] == y);
        }
        if !have.contains(y) {
            let all = head.push(y);
            assert(all.contains(x) <==> head.contains(x) || x == y) by {
                if all.contains(x) {
                    let i = all.index_of(x);
                    if i < head.len() {
                        assert(head[i] == x);
                    }
                }
                if head.contains(x) {
                    let i = head.index_of(x);
                    assert(all[i] == x);
                }
                assert(all[head.len() as int] == y);
            }
        }
    }
}

/// The keys of an ordered map are the domain of what it holds.
pub proof fn lemma_keys_are_domain<V>(m: OrdMap<String, V>)
    requires
        m.wf(),
    ensures
        forall|k: Seq<char>| #[trigger] m.map().dom().contains(k) <==> key_list(m).contains(k),
        forall|i: int| 0 <= i < key_list(m).len() ==> m.map().dom().contains(#[trigger] key_list(m)[i]),
{
    assert forall|i: int| 0 <= i < key_list(m).len() implies m.map().dom().contains(
        #[trigger] key_list(m)[i],
    ) by {
        lemma_entry(m.entries@, i);
    }
    assert forall|k: Seq<char>| #[trigger] m.map().dom().contains(k) implies key_list(m).contains(
        k,
    ) by {
        let i = crate::ordmap::key_index(m.entries@, k);
        assert(m.entries@[i].0.deep_view() == k);
        assert(key_list(m)[i] == k);
    }
}

/// The strings that a list holds, as a set.
pub fn collect(members: &Vec<String>) -> (r: StrSet)
    ensures
        r.wf(),
        r.map().dom() == set_of(members@),
{
    let mut out: StrSet = OrdMap::new();
    insert_all(&mut out, members);
    assert(out.map().dom() =~= set_of(members@));
    out
}

/// Adds every string of the list.
pub fn insert_all(set: &mut StrSet, members: &Vec<String>)
    requires
        old(set).wf(),
    ensures
        final(set).wf(),
        final(set).map().dom() == old(set).map().dom().union(set_of(members@)),
{
    let ghost before = set.map().dom();
    assert(before.union(set_of(members@.take(0))) =~= before);
    for i in 0..members.len()
        invariant
            set.wf(),
            set.map().dom() == before.union(set_of(members@.take(i as int))),
    {
        set.insert(members[i].clone(), ());
        proof {
            lemma_set_of_take(members@, i as int);
        }
        assert(set.map().dom() =~= before.union(set_of(members@.take(i + 1))));
    }
    assert(members@.take(members@.len() as int) =~= members@);
}

/// Takes every string of the list out.
pub fn remove_all(set: &mut StrSet, members: &Vec<String>)
    requires
        old(set).wf(),
    ensures
        final(set).wf(),
        final(set).map().dom() == old(set).map().dom().difference(set_of(members@)),
{
    let ghost before = set.map().dom();
    assert(before.difference(set_of(members@.take(0))) =~= before);
    for i in 0..members.len()
        invariant
            set.wf(),
            set.map().dom() == before.difference(set_of(members@.take(i as int))),
    {
        let _ = set.remove(&members[i]);
        proof {
            lemma_set_of_take(members@, i as int);
        }
        assert(set.map().dom() =~= before.difference(set_of(members@.take(i + 1))));
    }
    assert(members@.take(members@.len() as int) =~= members@);
}

/// One more string is one more element.
proof fn lemma_set_of_take(v: Seq<String>, i: int)
    requires
        0 <= i < v.len(),
    ensures
        set_of(v.take(i + 1)) == set_of(v.take(i)).insert(v[i]@),
{
    let a = set_of(v.take(i + 1));
    let b = set_of(v.take(i)).insert(v[i]@);
    assert forall|x: Seq<char>| a.contains(x) <==> b.contains(x) by {
        if a.contains(x) {
            let j = choose|j: int| 0 <= j < v.take(i + 1).len() && (#[trigger] v.take(i + 1)[j])@ == x;
            if j < i {
                assert(v.take(i)[j]@ == x);
            }
        }
        if set_of(v.take(i)).contains(x) {
            let j = choose|j: int| 0 <= j < v.take(i).len() && (#[trigger] v.take(i)[j])@ == x;
            assert(v.take(i + 1)[j]@ == x);
        }
        assert(v.take(i + 1)[i]@ == v[i]@);
    }
    assert(a =~= b);
}

/// A copy of the set.
pub fn copy_set(set: &StrSet) -> (r: StrSet)
    requires
        set.wf(),
    ensures
        r.wf(),
        r.entries@ == set.entries@,
{
    let mut out: Vec<(String, ())> = Vec::new();
    for i in 0..set.entries.len()
        invariant
            out@ == set.entries@.take(i as int),
    {
        let e = &set.entries[i];
        out.push((e.0.clone(), e.1));
        assert(out@ =~= set.entries@.take(i + 1));
    }
    assert(out@ =~= set.entries@);
    OrdMap { entries: out }
}

/// The strings of `set` that `have` does not hold, ascending.
pub fn difference(set: &StrSet, have: &StrSet) -> (r: Vec<String>)
    requires
        set.wf(),
        have.wf(),
    ensures
        views(r@) == missing(key_list(*set), have.map().dom()),
{
    let mut out: Vec<String> = Vec::new();
    for i in 0..set.entries.len()
        invariant
            have.wf(),
            views(out@) == missing_first(key_list(*set), have.map().dom(), i as nat),
    {
        if !have.contains(&set.entries[i].0) {
            out.push(set.entries[i].0.clone());
        }
    }
    out
}

/// The desired members of a set against those that have been programmed.
pub struct SetDeltaTracker {
    /// The members that are wanted.
    pub desired: StrSet,
    /// The members that the dataplane holds.
    pub dataplane: StrSet,
}

impl SetDeltaTracker {
    /// Both sides are well-formed.
    pub open spec fn wf(&self) -> bool {
        self.desired.wf() && self.dataplane.wf()
    }

    /// The members that are wanted.
    pub open spec fn desired_set(&self) -> Set<Seq<char>> {
        self.desired.map().dom()
    }

    /// The members that the dataplane holds.
    pub open spec fn dataplane_set(&self) -> Set<Seq<char>> {
        self.dataplane.map().dom()
    }

    /// The members to add, ascending.
    pub open spec fn additions(&self) -> Seq<Seq<char>> {
        missing(key_list(self.desired), self.dataplane_set())
    }

    /// The members to take out, ascending.
    pub open spec fn removals(&self) -> Seq<Seq<char>> {
        missing(key_list(self.dataplane), self.desired_set())
    }

    /// A tracker with nothing wanted and nothing programmed.
    pub fn new() -> (r: Self)
        ensures
            r.wf(),
            r.desired_set() == Set::<Seq<char>>::empty(),
            r.dataplane_set() == Set::<Seq<char>>::empty(),
    {
        let r = SetDeltaTracker { desired: OrdMap::new(), dataplane: OrdMap::new() };
        assert(r.desired_set() =~= Set::<Seq<char>>::empty());
        assert(r.dataplane_set() =~= Set::<Seq<char>>::empty());
        r
    }

    /// Makes exactly the given members the wanted ones.
    pub fn replace_desired(&mut self, members: &Vec<String>)
        requires
            old(self).wf(),
        ensures
            final(self).wf(),
            final(self).desired_set() == set_of(members@),
            final(self).dataplane == old(self).dataplane,
    {
        self.desired = collect(members);
    }

    /// The members to add, ascending.
    pub fn pending_additions(&self) -> (r: Vec<String>)
        requires
            self.wf(),
        ensures
            views(r@) == self.additions(),
    {
        difference(&self.desired, &self.dataplane)
    }

    /// The members to take out, ascending.
    pub fn pending_removals(&self) -> (r: Vec<String>)
        requires
            self.wf(),
        ensures
            views(r@) == self.removals(),
    {
        difference(&self.dataplane, &self.desired)
    }

    /// Records that the wanted members have been programmed.
    pub fn mark_in_sync(&mut self)
        requires
            old(self).wf(),
        ensures
            final(self).wf(),
            final(self).desired == old(self).desired,
            final(self).dataplane_set() == old(self).desired_set(),
    {
        self.dataplane = copy_set(&self.desired);
    }
}

/// Nothing is pending exactly where the wanted members are the programmed ones.
pub proof fn law_no_delta_means_equal(t: SetDeltaTracker)
    requires
        t.wf(),
    ensures
        (t.additions().len() == 0 && t.removals().len() == 0) <==> t.desired_set()
            == t.dataplane_set(),
{
    lemma_keys_are_domain(t.desired);
    lemma_keys_are_domain(t.dataplane);
    lemma_missing_none(key_list(t.desired), t.dataplane_set(), key_list(t.desired).len());
    lemma_missing_none(key_list(t.dataplane), t.desired_set(), key_list(t.dataplane).len());
    if t.additions().len() == 0 && t.removals().len() == 0 {
        assert forall|k: Seq<char>| t.desired_set().contains(k) <==> t.dataplane_set().contains(k) by {
            if t.desired_set().contains(k) {
                let i = key_list(t.desired).index_of(k);
                assert(key_list(t.desired)[i] == k);
            }
            if t.dataplane_set().contains(k) {
                let i = key_list(t.dataplane).index_of(k);
                assert(key_list(t.dataplane)[i] == k);
            }
        }
        assert(t.desired_set() =~= t.dataplane_set());
    }
}

/// The pending additions are what is wanted and not programmed, the pending removals what
/// is programmed and not wanted.
pub proof fn law_delta_is_exact(t: SetDeltaTracker, m: Seq<char>)
    requires
        t.wf(),
    ensures
        t.additions().contains(m) <==> t.desired_set().contains(m) && !t.dataplane_set().contains(m),
        t.removals().contains(m) <==> t.dataplane_set().contains(m) && !t.desired_set().contains(m),
{
    let a = key_list(t.desired);
    let b = key_list(t.dataplane);
    lemma_keys_are_domain(t.desired);
    lemma_keys_are_domain(t.dataplane);
    lemma_missing_contains(a, t.dataplane_set(), a.len(), m);
    lemma_missing_contains(b, t.desired_set(), b.len(), m);
    assert(a.take(a.len() as int) =~= a);
    assert(b.take(b.len() as int) =~= b);
}

} // verus!
