//! A map kept in ascending key order.
//!
//! The entries stand in one vector, strictly ascending by key, so that walking the map
//! is deterministic: what a walk yields depends on the contents alone, never on the
//! order in which they arrived.

use crate::text::{str_eq, to_chars, views};
use vstd::prelude::*;

verus! {

/// Lexicographic order on texts, by code point.
pub open spec fn text_less(a: Seq<char>, b: Seq<char>) -> bool
    decreases a.len(),
{
    if b.len() == 0 {
        false
    } else if a.len() == 0 {
        true
    } else if a[0] != b[0] {
        a[0] < b[0]
    } else {
        text_less(a.skip(1), b.skip(1))
    }
}

/// No text precedes itself.
pub proof fn lemma_text_irreflexive(a: Seq<char>)
    ensures
        !text_less(a, a),
    decreases a.len(),
{
    if a.len() > 0 {
        lemma_text_irreflexive(a.skip(1));
    }
}

/// The order on texts is transitive.
pub proof fn lemma_text_transitive(a: Seq<char>, b: Seq<char>, c: Seq<char>)
    requires
        text_less(a, b),
        text_less(b, c),
    ensures
        text_less(a, c),
    decreases a.len(),
{
    if a.len() > 0 && b.len() > 0 && c.len() > 0 && a[0] == b[0] && b[0] == c[0] {
        lemma_text_transitive(a.skip(1), b.skip(1), c.skip(1));
    }
}

/// Of two different texts one precedes the other.
pub proof fn lemma_text_total(a: Seq<char>, b: Seq<char>)
    requires
        a != b,
    ensures
        text_less(a, b) || text_less(b, a),
    decreases a.len(),
{
    if a.len() == 0 && b.len() == 0 {
        assert(a =~= b);
    } else if a.len() > 0 && b.len() > 0 && a[0] == b[0] {
        if a.skip(1) == b.skip(1) {
            assert(a.len() == a.skip(1).len() + 1);
            assert(b.len() == b.skip(1).len() + 1);
            assert forall|i: int| 0 <= i < a.len() implies a[i] == b[i] by {
                if i > 0 {
                    assert(a[i] == a.skip(1)[i - 1]);
                    assert(b[i] == b.skip(1)[i - 1]);
                }
            }
            assert(a =~= b);
        } else {
            lemma_text_total(a.skip(1), b.skip(1));
        }
    }
}

/// Whether `a` precedes `b`.
pub fn text_precedes(a: &str, b: &str) -> (r: bool)
    ensures
        r == text_less(a@, b@),
{
    let x = to_chars(a);
    let y = to_chars(b);
    let mut i: usize = 0;
    assert(x@.skip(0) =~= x@);
    assert(y@.skip(0) =~= y@);
    while i < x.len() && i < y.len() && x[i] == y[i]
        invariant
            i <= x.len(),
            i <= y.len(),
            x@ == a@,
            y@ == b@,
            text_less(a@, b@) == text_less(x@.skip(i as int), y@.skip(i as int)),
        decreases x.len() - i,
    {
        assert(x@.skip(i as int).skip(1) =~= x@.skip(i + 1));
        assert(y@.skip(i as int).skip(1) =~= y@.skip(i + 1));
        i = i + 1;
    }
    if i == y.len() {
        false
    } else if i == x.len() {
        true
    } else {
        x[i] < y[i]
    }
}

/// Lexicographic order on lists of texts.
pub open spec fn texts_less(a: Seq<Seq<char>>, b: Seq<Seq<char>>) -> bool
    decreases a.len(),
{
    if b.len() == 0 {
        false
    } else if a.len() == 0 {
        true
    } else if a[0] != b[0] {
        text_less(a[0], b[0])
    } else {
        texts_less(a.skip(1), b.skip(1))
    }
}

/// No list precedes itself.
pub proof fn lemma_texts_irreflexive(a: Seq<Seq<char>>)
    ensures
        !texts_less(a, a),
    decreases a.len(),
{
    if a.len() > 0 {
        lemma_texts_irreflexive(a.skip(1));
    }
}

/// The order on lists is transitive.
pub proof fn lemma_texts_transitive(a: Seq<Seq<char>>, b: Seq<Seq<char>>, c: Seq<Seq<char>>)
    requires
        texts_less(a, b),
        texts_less(b, c),
    ensures
        texts_less(a, c),
    decreases a.len(),
{
    if a.len() > 0 && b.len() > 0 && c.len() > 0 {
        lemma_text_irreflexive(a[0]);
        if a[0] == b[0] && b[0] == c[0] {
            lemma_texts_transitive(a.skip(1), b.skip(1), c.skip(1));
        } else if a[0] != b[0] && b[0] != c[0] {
            lemma_text_transitive(a[0], b[0], c[0]);
        }
    }
}

/// Of two different lists one precedes the other.
pub proof fn lemma_texts_total(a: Seq<Seq<char>>, b: Seq<Seq<char>>)
    requires
        a != b,
    ensures
        texts_less(a, b) || texts_less(b, a),
    decreases a.len(),
{
    if a.len() == 0 && b.len() == 0 {
        assert(a =~= b);
    } else if a.len() > 0 && b.len() > 0 {
        if a[0] != b[0] {
            lemma_text_total(a[0], b[0]);
        } else {
            if a.skip(1) == b.skip(1) {
                assert(a.len() == a.skip(1).len() + 1);
                assert(b.len() == b.skip(1).len() + 1);
                assert forall|i: int| 0 <= i < a.len() implies a[i] == b[i] by {
                    if i > 0 {
                        assert(a[i] == a.skip(1)[i - 1]);
                        assert(b[i] == b.skip(1)[i - 1]);
                    }
                }
                assert(a =~= b);
            }
            lemma_texts_total(a.skip(1), b.skip(1));
        }
    }
}

/// Whether the list `a` precedes the list `b`.
pub fn texts_precede(a: &Vec<String>, b: &Vec<String>) -> (r: bool)
    ensures
        r == texts_less(views(a@), views(b@)),
{
    let ghost x = views(a@);
    let ghost y = views(b@);
    let mut i: usize = 0;
    assert(x.skip(0) =~= x);
    assert(y.skip(0) =~= y);
    while i < a.len() && i < b.len()
        invariant
            i <= a.len(),
            i <= b.len(),
            x == views(a@),
            y == views(b@),
            texts_less(x, y) == texts_less(x.skip(i as int), y.skip(i as int)),
        decreases a.len() - i,
    {
        assert(x.skip(i as int)[0] == a@[i as int]@);
        assert(y.skip(i as int)[0] == b@[i as int]@);
        if !str_eq(a[i].as_str(), b[i].as_str()) {
            return text_precedes(a[i].as_str(), b[i].as_str());
        }
        assert(x.skip(i as int).skip(1) =~= x.skip(i + 1));
        assert(y.skip(i as int).skip(1) =~= y.skip(i + 1));
        i = i + 1;
    }
    i < b.len()
}

/// A key of an [`OrdMap`]: a type whose values are strictly and totally ordered by their
/// views.
pub trait MapKey: DeepView + Sized {
    /// Whether the key `a` precedes the key `b`.
    spec fn less(a: Self::V, b: Self::V) -> bool;

    /// No key precedes itself.
    proof fn less_irreflexive(a: Self::V)
        ensures
            !Self::less(a, a),
    ;

    /// The order is transitive.
    proof fn less_transitive(a: Self::V, b: Self::V, c: Self::V)
        requires
            Self::less(a, b),
            Self::less(b, c),
        ensures
            Self::less(a, c),
    ;

    /// Of two different keys one precedes the other.
    proof fn less_total(a: Self::V, b: Self::V)
        requires
            a != b,
        ensures
            Self::less(a, b) || Self::less(b, a),
    ;

    /// Whether this key precedes `other`.
    fn precedes(&self, other: &Self) -> (r: bool)
        ensures
            r == Self::less(self.deep_view(), other.deep_view()),
    ;

    /// Whether the two keys are the same.
    fn same(&self, other: &Self) -> (r: bool)
        ensures
            r == (self.deep_view() == other.deep_view()),
    ;
}

impl MapKey for String {
    open spec fn less(a: Seq<char>, b: Seq<char>) -> bool {
        text_less(a, b)
    }

    proof fn less_irreflexive(a: Seq<char>) {
        lemma_text_irreflexive(a);
    }

    proof fn less_transitive(a: Seq<char>, b: Seq<char>, c: Seq<char>) {
        lemma_text_transitive(a, b, c);
    }

    proof fn less_total(a: Seq<char>, b: Seq<char>) {
        lemma_text_total(a, b);
    }

    fn precedes(&self, other: &String) -> (r: bool) {
        text_precedes(self.as_str(), other.as_str())
    }

    fn same(&self, other: &String) -> (r: bool) {
        str_eq(self.as_str(), other.as_str())
    }
}

/// Whether the keys of `s` ascend strictly.
pub open spec fn ascending<K: MapKey, V>(s: Seq<(K, V)>) -> bool {
    forall|i: int, j: int|
        0 <= i < j < s.len() ==> K::less(
            (#[trigger] s[i]).0.deep_view(),
            (#[trigger] s[j]).0.deep_view(),
        )
}

/// Whether some entry of `s` has the key `k`.
pub open spec fn has_key<K: MapKey, V>(s: Seq<(K, V)>, k: K::V) -> bool {
    exists|i: int| 0 <= i < s.len() && (#[trigger] s[i]).0.deep_view() == k
}

/// The position of the entry with the key `k`.
pub open spec fn key_index<K: MapKey, V>(s: Seq<(K, V)>, k: K::V) -> int {
    choose|i: int| 0 <= i < s.len() && (#[trigger] s[i]).0.deep_view() == k
}

/// The entries `s` as a mathematical map.
pub open spec fn map_of<K: MapKey, V>(s: Seq<(K, V)>) -> Map<K::V, V> {
    Map::new(|k: K::V| has_key(s, k), |k: K::V| s[key_index(s, k)].1)
}

/// The entry at `i` is what its key maps to.
pub proof fn lemma_entry<K: MapKey, V>(s: Seq<(K, V)>, i: int)
    requires
        ascending(s),
        0 <= i < s.len(),
    ensures
        has_key(s, s[i].0.deep_view()),
        key_index(s, s[i].0.deep_view()) == i,
        map_of(s).dom().contains(s[i].0.deep_view()),
        map_of(s)[s[i].0.deep_view()] == s[i].1,
{
    let k = s[i].0.deep_view();
    let j = key_index(s, k);
    assert(s[i].0.deep_view() == k);
    assert(0 <= j < s.len() && s[j].0.deep_view() == k);
    K::less_irreflexive(k);
    if i < j {
        assert(K::less(s[i].0.deep_view(), s[j].0.deep_view()));
    } else if j < i {
        assert(K::less(s[j].0.deep_view(), s[i].0.deep_view()));
    }
}

/// An ordered map.
#[derive(Debug, PartialEq, Eq)]
pub struct OrdMap<K, V> {
    /// The entries, ascending by key.
    pub entries: Vec<(K, V)>,
}

impl<K: MapKey, V> OrdMap<K, V> {
    /// The keys ascend strictly.
    pub open spec fn wf(&self) -> bool {
        ascending(self.entries@)
    }

    /// What the map holds.
    pub open spec fn map(&self) -> Map<K::V, V> {
        map_of(self.entries@)
    }

    /// The empty map.
    pub fn new() -> (r: Self)
        ensures
            r.wf(),
            r.map() == Map::<K::V, V>::empty(),
            r.entries@.len() == 0,
    {
        let r = OrdMap { entries: Vec::new() };
        assert(r.map() =~= Map::<K::V, V>::empty());
        r
    }

    /// The number of entries.
    pub fn len(&self) -> (r: usize)
        ensures
            r == self.entries@.len(),
    {
        self.entries.len()
    }

    /// Whether there is no entry.
    pub fn is_empty(&self) -> (r: bool)
        ensures
            r == (self.entries@.len() == 0),
    {
        self.entries.len() == 0
    }

    /// The first position whose key does not precede `k`.
    fn position(&self, k: &K) -> (r: usize)
        requires
            self.wf(),
        ensures
            r <= self.entries@.len(),
            forall|i: int|
                0 <= i < r ==> K::less((#[trigger] self.entries@[i]).0.deep_view(), k.deep_view()),
            r < self.entries@.len() ==> !K::less(
                self.entries@[r as int].0.deep_view(),
                k.deep_view(),
            ),
    {
        let mut i: usize = 0;
        while i < self.entries.len() && self.entries[i].0.precedes(k)
            invariant
                i <= self.entries.len(),
                forall|j: int|
                    0 <= j < i ==> K::less(
                        (#[trigger] self.entries@[j]).0.deep_view(),
                        k.deep_view(),
                    ),
            decreases self.entries.len() - i,
        {
            i = i + 1;
        }
        i
    }

    /// The position of the key `k`, where it has one.
    pub fn find(&self, k: &K) -> (r: Option<usize>)
        requires
            self.wf(),
        ensures
            match r {
                Some(i) => i < self.entries@.len() && self.entries@[i as int].0.deep_view()
                    == k.deep_view() && self.map().dom().contains(k.deep_view())
                    && self.map()[k.deep_view()] == self.entries@[i as int].1,
                None => !self.map().dom().contains(k.deep_view()),
            },
    {
        let p = self.position(k);
        if p < self.entries.len() && self.entries[p].0.same(k) {
            proof {
                lemma_entry(self.entries@, p as int);
            }
            return Some(p);
        }
        proof {
            lemma_absent(self.entries@, p as int, k.deep_view());
        }
        None
    }

    /// The value of the key `k`.
    pub fn get(&self, k: &K) -> (r: Option<&V>)
        requires
            self.wf(),
        ensures
            match r {
                Some(v) => self.map().dom().contains(k.deep_view()) && self.map()[k.deep_view()]
                    == *v,
                None => !self.map().dom().contains(k.deep_view()),
            },
    {
        match self.find(k) {
            Some(i) => Some(&self.entries[i].1),
            None => None,
        }
    }

    /// Whether the key `k` is there.
    pub fn contains(&self, k: &K) -> (r: bool)
        requires
            self.wf(),
        ensures
            r == self.map().dom().contains(k.deep_view()),
    {
        match self.find(k) {
            Some(_) => true,
            None => false,
        }
    }

    /// Binds `k` to `v`, in place of what it was bound to.
    pub fn insert(&mut self, k: K, v: V)
        requires
            old(self).wf(),
        ensures
            final(self).wf(),
            final(self).map() == old(self).map().insert(k.deep_view(), v),
    {
        let p = self.position(&k);
        let ghost s = self.entries@;
        if p < self.entries.len() && self.entries[p].0.same(&k) {
            let mut e = (k, v);
            proof {
                lemma_replace(s, p as int, e);
            }
            self.entries.set(p, e);
        } else {
            proof {
                lemma_absent(s, p as int, k.deep_view());
                if p < s.len() {
                    K::less_total(s[p as int].0.deep_view(), k.deep_view());
                }
                lemma_insert(s, p as int, (k, v));
            }
            self.entries.insert(p, (k, v));
        }
    }

    /// Takes the key `k` out, and gives what it was bound to.
    pub fn remove(&mut self, k: &K) -> (r: Option<V>)
        requires
            old(self).wf(),
        ensures
            final(self).wf(),
            final(self).map() == old(self).map().remove(k.deep_view()),
            match r {
                Some(v) => old(self).map().dom().contains(k.deep_view())
                    && old(self).map()[k.deep_view()] == v,
                None => !old(self).map().dom().contains(k.deep_view()),
            },
    {
        let ghost s = self.entries@;
        match self.find(k) {
            Some(i) => {
                proof {
                    lemma_remove(s, i as int);
                }
                let e = self.entries.remove(i);
                Some(e.1)
            },
            None => {
                assert(self.map() =~= self.map().remove(k.deep_view()));
                None
            },
        }
    }
}

/// Labels or annotations: texts under texts.
pub type Labels = OrdMap<String, String>;

impl<K: DeepView, V: DeepView> DeepView for OrdMap<K, V> {
    type V = Seq<(K::V, V::V)>;

    open spec fn deep_view(&self) -> Seq<(K::V, V::V)> {
        self.entries.deep_view()
    }
}

impl Clone for OrdMap<String, String> {
    fn clone(&self) -> (r: Self)
        ensures
            r.entries@ == self.entries@,
    {
        let mut out: Vec<(String, String)> = Vec::new();
        for i in 0..self.entries.len()
            invariant
                out@ == self.entries@.take(i as int),
        {
            let e = &self.entries[i];
            out.push((e.0.clone(), e.1.clone()));
            assert(out@ =~= self.entries@.take(i + 1));
        }
        assert(out@ =~= self.entries@);
        OrdMap { entries: out }
    }
}

impl<V> OrdMap<String, V> {
    /// The value of the key `k`.
    pub fn lookup(&self, k: &str) -> (r: Option<&V>)
        requires
            self.wf(),
        ensures
            match r {
                Some(v) => self.map().dom().contains(k@) && self.map()[k@] == *v,
                None => !self.map().dom().contains(k@),
            },
    {
        let key = k.to_owned();
        self.get(&key)
    }
}

/// Where the search for `k` ended without a hit, `k` is not a key.
proof fn lemma_absent<K: MapKey, V>(s: Seq<(K, V)>, p: int, k: K::V)
    requires
        ascending(s),
        0 <= p <= s.len(),
        forall|i: int| 0 <= i < p ==> K::less((#[trigger] s[i]).0.deep_view(), k),
        p < s.len() ==> !K::less(s[p].0.deep_view(), k) && s[p].0.deep_view() != k,
    ensures
        !has_key(s, k),
        !map_of(s).dom().contains(k),
{
    if has_key(s, k) {
        let i = key_index(s, k);
        assert(0 <= i < s.len() && s[i].0.deep_view() == k);
        K::less_irreflexive(k);
        if i > p {
            assert(K::less(s[p].0.deep_view(), s[i].0.deep_view()));
        }
    }
}

/// Replacing the entry of a key rebinds that key alone.
proof fn lemma_replace<K: MapKey, V>(s: Seq<(K, V)>, p: int, e: (K, V))
    requires
        ascending(s),
        0 <= p < s.len(),
        s[p].0.deep_view() == e.0.deep_view(),
    ensures
        ascending(s.update(p, e)),
        map_of(s.update(p, e)) == map_of(s).insert(e.0.deep_view(), e.1),
{
    let t = s.update(p, e);
    let k = e.0.deep_view();
    assert forall|i: int, j: int| 0 <= i < j < t.len() implies K::less(
        (#[trigger] t[i]).0.deep_view(),
        (#[trigger] t[j]).0.deep_view(),
    ) by {
        assert(t[i].0.deep_view() == s[i].0.deep_view());
        assert(t[j].0.deep_view() == s[j].0.deep_view());
    }
    lemma_entry(t, p);
    let a = map_of(t);
    let b = map_of(s).insert(k, e.1);
    assert forall|q: K::V| a.dom().contains(q) <==> b.dom().contains(q) by {
        if has_key(t, q) {
            let i = key_index(t, q);
            assert(t[i].0.deep_view() == q);
            assert(s[i].0.deep_view() == q);
        }
        if has_key(s, q) {
            let i = key_index(s, q);
            assert(s[i].0.deep_view() == q);
            assert(t[i].0.deep_view() == q);
        }
    }
    assert forall|q: K::V| a.dom().contains(q) implies a[q] == b[q] by {
        let i = key_index(t, q);
        assert(t[i].0.deep_view() == q);
        lemma_entry(t, i);
        lemma_entry(s, i);
        assert(s[i].0.deep_view() == q);
        if q != k {
            assert(i != p);
        }
    }
    assert(a =~= b);
}

/// Inserting an entry where its key belongs binds that key alone.
proof fn lemma_insert<K: MapKey, V>(s: Seq<(K, V)>, p: int, e: (K, V))
    requires
        ascending(s),
        0 <= p <= s.len(),
        forall|i: int|
            0 <= i < p ==> K::less((#[trigger] s[i]).0.deep_view(), e.0.deep_view()),
        p < s.len() ==> K::less(e.0.deep_view(), s[p].0.deep_view()),
        !has_key(s, e.0.deep_view()),
    ensures
        ascending(s.insert(p, e)),
        map_of(s.insert(p, e)) == map_of(s).insert(e.0.deep_view(), e.1),
{
    let t = s.insert(p, e);
    let k = e.0.deep_view();
    assert forall|i: int, j: int| 0 <= i < j < t.len() implies K::less(
        (#[trigger] t[i]).0.deep_view(),
        (#[trigger] t[j]).0.deep_view(),
    ) by {
        if i < p {
            assert(t[i] == s[i]);
            if j < p {
                assert(t[j] == s[j]);
            } else if j > p {
                assert(t[j] == s[j - 1]);
            }
        } else if i == p {
            assert(t[j] == s[j - 1]);
            if j - 1 > p {
                assert(K::less(s[p].0.deep_view(), s[j - 1].0.deep_view()));
                K::less_transitive(k, s[p].0.deep_view(), s[j - 1].0.deep_view());
            }
        } else {
            assert(t[i] == s[i - 1]);
            assert(t[j] == s[j - 1]);
        }
    }
    lemma_entry(t, p);
    let a = map_of(t);
    let b = map_of(s).insert(k, e.1);
    assert forall|q: K::V| a.dom().contains(q) <==> b.dom().contains(q) by {
        if has_key(t, q) && q != k {
            let i = key_index(t, q);
            assert(t[i].0.deep_view() == q);
            let o = if i < p {
                i
            } else {
                i - 1
            };
            assert(t[i] == s[o]);
        }
        if has_key(s, q) {
            let i = key_index(s, q);
            assert(s[i].0.deep_view() == q);
            let o = if i < p {
                i
            } else {
                i + 1
            };
            assert(t[o] == s[i]);
        }
    }
    assert forall|q: K::V| a.dom().contains(q) implies a[q] == b[q] by {
        let i = key_index(t, q);
        assert(t[i].0.deep_view() == q);
        lemma_entry(t, i);
        if q != k {
            let o = if i < p {
                i
            } else {
                i - 1
            };
            assert(t[i] == s[o]);
            lemma_entry(s, o);
        }
    }
    assert(a =~= b);
}

/// Removing an entry unbinds its key alone.
proof fn lemma_remove<K: MapKey, V>(s: Seq<(K, V)>, p: int)
    requires
        ascending(s),
        0 <= p < s.len(),
    ensures
        ascending(s.remove(p)),
        map_of(s.remove(p)) == map_of(s).remove(s[p].0.deep_view()),
{
    let t = s.remove(p);
    let k = s[p].0.deep_view();
    assert forall|i: int, j: int| 0 <= i < j < t.len() implies K::less(
        (#[trigger] t[i]).0.deep_view(),
        (#[trigger] t[j]).0.deep_view(),
    ) by {
        let i2 = if i < p {
            i
        } else {
            i + 1
        };
        let j2 = if j < p {
            j
        } else {
            j + 1
        };
        assert(t[i] == s[i2] && t[j] == s[j2]);
    }
    let a = map_of(t);
    let b = map_of(s).remove(k);
    assert forall|q: K::V| a.dom().contains(q) <==> b.dom().contains(q) by {
        if has_key(t, q) {
            let i = key_index(t, q);
            assert(t[i].0.deep_view() == q);
            let o = if i < p {
                i
            } else {
                i + 1
            };
            assert(t[i] == s[o]);
            lemma_entry(s, o);
            lemma_entry(s, p);
        }
        if has_key(s, q) && q != k {
            let i = key_index(s, q);
            assert(s[i].0.deep_view() == q);
            let o = if i < p {
                i
            } else {
                i - 1
            };
            assert(t[o] == s[i]);
        }
    }
    assert forall|q: K::V| a.dom().contains(q) implies a[q] == b[q] by {
        let i = key_index(t, q);
        assert(t[i].0.deep_view() == q);
        let o = if i < p {
            i
        } else {
            i + 1
        };
        assert(t[i] == s[o]);
        lemma_entry(t, i);
        lemma_entry(s, o);
    }
    assert(a =~= b);
}

/// A map with its values replaced by their views.
pub open spec fn deep_map<K, V: DeepView>(m: Map<K, V>) -> Map<K, V::V> {
    Map::new(|k: K| m.dom().contains(k), |k: K| m[k].deep_view())
}

/// Binding a key binds it in the view.
pub broadcast proof fn lemma_deep_insert<K, V: DeepView>(m: Map<K, V>, k: K, v: V)
    ensures
        #[trigger] deep_map(m.insert(k, v)) == deep_map(m).insert(k, v.deep_view()),
{
    assert(deep_map(m.insert(k, v)) =~= deep_map(m).insert(k, v.deep_view()));
}

/// Unbinding a key unbinds it in the view.
pub broadcast proof fn lemma_deep_remove<K, V: DeepView>(m: Map<K, V>, k: K)
    ensures
        #[trigger] deep_map(m.remove(k)) == deep_map(m).remove(k),
{
    assert(deep_map(m.remove(k)) =~= deep_map(m).remove(k));
}

/// Whether `s` lists the keys of `d` in ascending order, each once.
pub open spec fn enumerates<K: MapKey>(s: Seq<K::V>, d: Set<K::V>) -> bool {
    &&& forall|i: int, j: int| 0 <= i < j < s.len() ==> K::less(#[trigger] s[i], #[trigger] s[j])
    &&& forall|k: K::V| #[trigger] d.contains(k) <==> s.contains(k)
}

/// The keys of `d` in ascending order.
pub open spec fn in_order<K: MapKey>(d: Set<K::V>) -> Seq<K::V> {
    choose|s: Seq<K::V>| enumerates::<K>(s, d)
}

/// What `m` holds, in ascending order of the keys.
pub open spec fn listing<K: MapKey, W>(m: Map<K::V, W>) -> Seq<(K::V, W)> {
    let keys = in_order::<K>(m.dom());
    Seq::new(keys.len(), |i: int| (keys[i], m[keys[i]]))
}

/// There is one way at most to list keys in ascending order.
pub proof fn lemma_one_order<K: MapKey>(a: Seq<K::V>, b: Seq<K::V>, d: Set<K::V>)
    requires
        enumerates::<K>(a, d),
        enumerates::<K>(b, d),
    ensures
        a == b,
    decreases a.len(),
{
    if a.len() == 0 {
        if b.len() > 0 {
            assert(b.contains(b[0]));
            assert(d.contains(b[0]));
            assert(a.contains(b[0]));
        }
        assert(a =~= b);
    } else if b.len() == 0 {
        assert(a.contains(a[0]));
        assert(d.contains(a[0]));
        assert(b.contains(a[0]));
    } else {
        let x = a.last();
        let y = b.last();
        assert(a.contains(x) && b.contains(y));
        assert(d.contains(x) && d.contains(y));
        assert(b.contains(x) && a.contains(y));
        let i = b.index_of(x);
        let j = a.index_of(y);
        if x != y {
            assert(K::less(b[i], b[b.len() - 1]));
            assert(K::less(a[j], a[a.len() - 1]));
            K::less_transitive(x, y, x);
            K::less_irreflexive(x);
        }
        lemma_drop_key::<K>(a, d);
        lemma_drop_key::<K>(b, d);
        lemma_one_order::<K>(a.drop_last(), b.drop_last(), d.remove(x));
        assert(a =~= a.drop_last().push(x));
        assert(b =~= b.drop_last().push(y));
    }
}

/// Without its last key a list enumerates the other keys.
proof fn lemma_drop_key<K: MapKey>(a: Seq<K::V>, d: Set<K::V>)
    requires
        enumerates::<K>(a, d),
        a.len() > 0,
    ensures
        enumerates::<K>(a.drop_last(), d.remove(a.last())),
{
    let b = a.drop_last();
    let e = d.remove(a.last());
    assert forall|k: K::V| #[trigger] e.contains(k) <==> b.contains(k) by {
        if b.contains(k) {
            let i = b.index_of(k);
            assert(a[i] == k);
            assert(a.contains(k));
            assert(d.contains(k));
            assert(K::less(a[i], a[a.len() - 1]));
            K::less_irreflexive(k);
        }
        if e.contains(k) {
            assert(d.contains(k));
            let i = a.index_of(k);
            assert(b[i] == k);
        }
    }
}

/// Where a key belongs in a list that does not have it.
proof fn lemma_place<K: MapKey>(a: Seq<K::V>, d: Set<K::V>, k: K::V) -> (p: int)
    requires
        enumerates::<K>(a, d),
        !d.contains(k),
    ensures
        0 <= p <= a.len(),
        forall|i: int| 0 <= i < p ==> K::less(#[trigger] a[i], k),
        forall|i: int| p <= i < a.len() ==> K::less(k, #[trigger] a[i]),
    decreases a.len(),
{
    if a.len() == 0 {
        0
    } else {
        let x = a.last();
        assert(a.contains(x));
        assert(d.contains(x));
        K::less_total(x, k);
        if K::less(x, k) {
            assert forall|i: int| 0 <= i < a.len() implies K::less(#[trigger] a[i], k) by {
                if i < a.len() - 1 {
                    assert(K::less(a[i], a[a.len() - 1]));
                    K::less_transitive(a[i], x, k);
                }
            }
            a.len() as int
        } else {
            lemma_drop_key::<K>(a, d);
            let p = lemma_place::<K>(a.drop_last(), d.remove(x), k);
            assert forall|i: int| 0 <= i < p implies K::less(#[trigger] a[i], k) by {
                assert(a.drop_last()[i] == a[i]);
            }
            assert forall|i: int| p <= i < a.len() implies K::less(k, #[trigger] a[i]) by {
                if i < a.len() - 1 {
                    assert(a.drop_last()[i] == a[i]);
                }
            }
            p
        }
    }
}

/// With one key more the keys are listed as before, but for that key in its place.
pub proof fn lemma_order_with<K: MapKey>(d: Set<K::V>, k: K::V) -> (p: int)
    requires
        enumerates::<K>(in_order::<K>(d), d),
        !d.contains(k),
    ensures
        0 <= p <= in_order::<K>(d).len(),
        in_order::<K>(d.insert(k)) == in_order::<K>(d).insert(p, k),
        enumerates::<K>(in_order::<K>(d.insert(k)), d.insert(k)),
{
    let a = in_order::<K>(d);
    let p = lemma_place::<K>(a, d, k);
    let b = a.insert(p, k);
    let e = d.insert(k);
    assert forall|i: int, j: int| 0 <= i < j < b.len() implies K::less(
        #[trigger] b[i],
        #[trigger] b[j],
    ) by {
        if i < p {
            assert(b[i] == a[i]);
        } else if i > p {
            assert(b[i] == a[i - 1]);
        }
        if j < p {
            assert(b[j] == a[j]);
        } else if j > p {
            assert(b[j] == a[j - 1]);
        }
    }
    assert forall|x: K::V| #[trigger] e.contains(x) <==> b.contains(x) by {
        if e.contains(x) {
            if x == k {
                assert(b[p] == x);
            } else {
                assert(d.contains(x));
                let i = a.index_of(x);
                assert(b[if i < p { i } else { i + 1 }] == x);
            }
        }
        if b.contains(x) {
            let i = b.index_of(x);
            if i != p {
                assert(a[if i < p { i } else { i - 1 }] == x);
                assert(a.contains(x));
            }
        }
    }
    assert(enumerates::<K>(b, e));
    lemma_one_order::<K>(b, in_order::<K>(e), e);
    p
}

/// Finitely many keys can be listed in ascending order.
pub proof fn lemma_finite_in_order<K: MapKey>(d: Set<K::V>)
    requires
        d.finite(),
    ensures
        enumerates::<K>(in_order::<K>(d), d),
    decreases d.len(),
{
    if d.len() == 0 {
        assert(enumerates::<K>(Seq::empty(), d));
    } else {
        let k = d.choose();
        lemma_finite_in_order::<K>(d.remove(k));
        lemma_order_with::<K>(d.remove(k), k);
        assert(d.remove(k).insert(k) =~= d);
    }
}

/// Without one of the keys the others are listed as before.
pub proof fn lemma_order_without<K: MapKey>(d: Set<K::V>, p: int)
    requires
        enumerates::<K>(in_order::<K>(d), d),
        0 <= p < in_order::<K>(d).len(),
    ensures
        in_order::<K>(d.remove(in_order::<K>(d)[p])) == in_order::<K>(d).remove(p),
        enumerates::<K>(
            in_order::<K>(d.remove(in_order::<K>(d)[p])),
            d.remove(in_order::<K>(d)[p]),
        ),
{
    let a = in_order::<K>(d);
    let b = a.remove(p);
    let e = d.remove(a[p]);
    assert forall|i: int, j: int| 0 <= i < j < b.len() implies K::less(
        #[trigger] b[i],
        #[trigger] b[j],
    ) by {
        assert(b[i] == a[if i < p { i } else { i + 1 }]);
        assert(b[j] == a[if j < p { j } else { j + 1 }]);
    }
    assert forall|x: K::V| #[trigger] e.contains(x) <==> b.contains(x) by {
        if e.contains(x) {
            assert(d.contains(x));
            let i = a.index_of(x);
            assert(b[if i < p { i } else { i - 1 }] == x);
        }
        if b.contains(x) {
            let i = b.index_of(x);
            let j = if i < p {
                i
            } else {
                i + 1
            };
            assert(a[j] == x);
            assert(a.contains(x));
            assert(d.contains(x));
            if j < p {
                assert(K::less(a[j], a[p]));
            } else {
                assert(K::less(a[p], a[j]));
            }
            K::less_irreflexive(x);
        }
    }
    assert(enumerates::<K>(b, e));
    lemma_one_order::<K>(b, in_order::<K>(e), e);
}

/// The keys of ascending entries are listed by the entries.
pub proof fn lemma_keys_enumerate<K: MapKey, V>(s: Seq<(K, V)>)
    requires
        ascending(s),
    ensures
        enumerates::<K>(Seq::new(s.len(), |i: int| s[i].0.deep_view()), map_of(s).dom()),
        Seq::new(s.len(), |i: int| s[i].0.deep_view()) == in_order::<K>(map_of(s).dom()),
        enumerates::<K>(in_order::<K>(map_of(s).dom()), map_of(s).dom()),
{
    let t = Seq::new(s.len(), |i: int| s[i].0.deep_view());
    let d = map_of(s).dom();
    assert forall|k: K::V| #[trigger] d.contains(k) <==> t.contains(k) by {
        if d.contains(k) {
            let i = key_index(s, k);
            assert(s[i].0.deep_view() == k);
            assert(t[i] == k);
        }
        if t.contains(k) {
            let i = t.index_of(k);
            lemma_entry(s, i);
        }
    }
    assert(enumerates::<K>(t, d));
    lemma_one_order::<K>(t, in_order::<K>(d), d);
}

/// The keys of an ordered map stand in ascending order.
pub proof fn lemma_keys_in_order<K: MapKey, V>(m: OrdMap<K, V>)
    requires
        m.wf(),
    ensures
        Seq::new(m.entries@.len(), |i: int| m.entries@[i].0.deep_view()) == in_order::<K>(
            m.map().dom(),
        ),
        enumerates::<K>(in_order::<K>(m.map().dom()), m.map().dom()),
{
    lemma_keys_enumerate(m.entries@);
}

/// The keys of an ordered map can be listed without one of them.
pub proof fn lemma_keys_without<K: MapKey, V>(m: OrdMap<K, V>, k: K::V)
    requires
        m.wf(),
    ensures
        enumerates::<K>(in_order::<K>(m.map().remove(k).dom()), m.map().remove(k).dom()),
{
    if m.map().dom().contains(k) {
        let i = key_index(m.entries@, k);
        assert(m.entries@[i].0.deep_view() == k);
        lemma_remove(m.entries@, i);
        lemma_keys_enumerate(m.entries@.remove(i));
    } else {
        assert(m.map().remove(k) =~= m.map());
        lemma_keys_in_order(m);
    }
}

/// What an ordered map holds determines how it is listed: the entries are the contents in
/// ascending order of the keys, however they came about.
pub proof fn law_contents_determine_order<K: MapKey, V: DeepView>(m: OrdMap<K, V>)
    requires
        m.wf(),
    ensures
        m.entries.deep_view() == listing::<K, V::V>(deep_map(m.map())),
{
    lemma_keys_in_order(m);
    assert(deep_map(m.map()).dom() =~= m.map().dom());
    let keys = in_order::<K>(m.map().dom());
    assert forall|i: int| 0 <= i < m.entries@.len() implies m.entries.deep_view()[i] == (
        keys[i],
        deep_map(m.map())[keys[i]],
    ) by {
        lemma_entry(m.entries@, i);
        assert(keys[i] == m.entries@[i].0.deep_view());
    }
    assert(m.entries.deep_view() =~= listing::<K, V::V>(deep_map(m.map())));
}

} // verus!
