//! From watch events to an ordered stream of updates.
//!
//! A watch begins with a list of all objects, and lists them again whenever it has lost
//! track. What vanished in between is not reported by the watch; it is found here, by
//! holding the new list against what was delivered, and delivered as a deletion.

use crate::cas::Revision;
use crate::kdd::ObjectFacts;
use crate::model::{name_of, KVPair, Key, KeyView, ResourceKind};
use crate::ordmap::{
    deep_map, in_order, lemma_keys_in_order, lemma_keys_without, text_less, Labels, MapKey, OrdMap,
};
use crate::seqs::push_item;
use crate::text::{decimal, parse_unsigned, unsigned_value};
use serde_json::Value;
use vstd::prelude::*;

verus! {

broadcast use {
    crate::ordmap::lemma_deep_insert,
    crate::ordmap::lemma_deep_remove,
};

/// How far a syncer has come.
#[derive(Debug, Clone, Copy, PartialEq, Eq, Structural)]
pub enum SyncStatus {
    /// It has not reached the datastore yet.
    WaitForDatastore,
    /// The list is being delivered.
    ResyncInProgress,
    /// The list has been delivered.
    InSync,
}

impl DeepView for SyncStatus {
    type V = SyncStatus;

    open spec fn deep_view(&self) -> SyncStatus {
        *self
    }
}

/// What an update says of its key.
#[derive(Debug, Clone, Copy, PartialEq, Eq, Structural)]
pub enum UpdateType {
    /// It is in the list.
    New,
    /// It was added or changed.
    Updated,
    /// It is gone.
    Deleted,
}

impl DeepView for UpdateType {
    type V = UpdateType;

    open spec fn deep_view(&self) -> UpdateType {
        *self
    }
}

/// One event of a syncer.
#[derive(Debug, PartialEq, Eq)]
pub enum SyncerEvent {
    /// How far the syncer has come.
    Status(SyncStatus),
    /// An update of a key.
    Update {
        /// The key.
        key: Key,
        /// The specification; that of a deleted key is the last one known.
        spec: Value,
        /// The revision.
        revision: Revision,
        /// What the update says of the key.
        update_type: UpdateType,
        /// The labels of the resource.
        labels: Labels,
    },
}

/// The mathematical content of a [`SyncerEvent`].
#[verifier::ext_equal]
pub enum SyncerEventView {
    Status(SyncStatus),
    Update {
        key: KeyView,
        spec: Value,
        revision: Revision,
        update_type: UpdateType,
        labels: Seq<(Seq<char>, Seq<char>)>,
    },
}

impl DeepView for SyncerEvent {
    type V = SyncerEventView;

    open spec fn deep_view(&self) -> SyncerEventView {
        match self {
            SyncerEvent::Status(s) => SyncerEventView::Status(*s),
            SyncerEvent::Update { key, spec, revision, update_type, labels } => {
                SyncerEventView::Update {
                    key: key.deep_view(),
                    spec: *spec,
                    revision: *revision,
                    update_type: *update_type,
                    labels: labels.deep_view(),
                }
            },
        }
    }
}

/// What was last delivered of an object.
pub struct KnownObj {
    /// The specification.
    pub spec: Value,
    /// The revision.
    pub revision: Revision,
    /// The labels.
    pub labels: Labels,
}

/// The mathematical content of a [`KnownObj`].
#[verifier::ext_equal]
pub struct KnownObjView {
    pub spec: Value,
    pub revision: Revision,
    pub labels: Seq<(Seq<char>, Seq<char>)>,
}

impl DeepView for KnownObj {
    type V = KnownObjView;

    open spec fn deep_view(&self) -> KnownObjView {
        KnownObjView {
            spec: self.spec,
            revision: self.revision,
            labels: self.labels.deep_view(),
        }
    }
}

/// One event of a watch.
pub enum WatchInput {
    /// A list begins.
    Init,
    /// An object of the list.
    InitApply(ObjectFacts),
    /// The list is complete.
    InitDone,
    /// An object was added or changed.
    Apply(ObjectFacts),
    /// An object was deleted.
    Delete(ObjectFacts),
}

/// The key of an object of the given kind.
pub open spec fn key_of(kind: ResourceKind, obj: ObjectFacts) -> KeyView {
    KeyView::Resource {
        kind,
        namespace: obj.namespace.deep_view(),
        name: match obj.name {
            Some(n) => n@,
            None => Seq::empty(),
        },
    }
}

/// The revision that a version token denotes; 0 where it is missing or no number.
pub open spec fn revision_of(token: Option<Seq<char>>) -> Revision {
    match token {
        Some(t) => match unsigned_value(t, u64::MAX as nat) {
            Some(n) => n as u64,
            None => 0,
        },
        None => 0,
    }
}

/// The revision that a version token denotes.
pub fn parse_revision(token: &Option<String>) -> (r: Revision)
    ensures
        r == revision_of(token.deep_view()),
{
    match token {
        Some(t) => match parse_unsigned(t.as_str(), u64::MAX) {
            Some(n) => n,
            None => 0,
        },
        None => 0,
    }
}

/// What an object brings besides its key.
pub open spec fn content_of(obj: ObjectFacts) -> KnownObjView {
    KnownObjView {
        spec: obj.spec,
        revision: revision_of(obj.resource_version.deep_view()),
        labels: match obj.labels {
            Some(l) => l.deep_view(),
            None => Seq::empty(),
        },
    }
}

/// The update of a key with the given content.
pub open spec fn update_event(key: KeyView, content: KnownObjView, update_type: UpdateType) -> SyncerEventView {
    SyncerEventView::Update {
        key,
        spec: content.spec,
        revision: content.revision,
        update_type,
        labels: content.labels,
    }
}

/// The update that an object brings.
pub fn update(kind: ResourceKind, obj: ObjectFacts, update_type: UpdateType) -> (r: SyncerEvent)
    ensures
        r.deep_view() == update_event(key_of(kind, obj), content_of(obj), update_type),
{
    let revision = parse_revision(&obj.resource_version);
    let name = match obj.name {
        Some(n) => n,
        None => String::new(),
    };
    let labels: Labels = match obj.labels {
        Some(l) => l,
        None => {
            let l: Labels = OrdMap::new();
            assert(l.deep_view() =~= Seq::<(Seq<char>, Seq<char>)>::empty());
            l
        },
    };
    SyncerEvent::Update {
        key: Key::Resource { kind, namespace: obj.namespace, name },
        spec: obj.spec,
        revision,
        update_type,
        labels,
    }
}

/// What the state of a watch of one kind is.
#[verifier::ext_equal]
pub struct WatchView {
    /// What was delivered and not deleted, by key.
    pub known: Map<KeyView, KnownObjView>,
    /// The keys of the list that is being delivered.
    pub seen: Set<KeyView>,
}

/// Those of the first `n` keys that were not seen.
pub open spec fn unseen_first(keys: Seq<KeyView>, seen: Set<KeyView>, n: nat) -> Seq<KeyView>
    decreases n,
{
    if n == 0 {
        Seq::empty()
    } else {
        let head = unseen_first(keys, seen, (n - 1) as nat);
        if seen.contains(keys[n - 1]) {
            head
        } else {
            head.push(keys[n - 1])
        }
    }
}

impl WatchView {
    /// Nothing was delivered.
    pub open spec fn initial() -> WatchView {
        WatchView { known: Map::empty(), seen: Set::empty() }
    }

    /// The keys that were delivered and that the list does not hold, ascending.
    pub open spec fn stale(self) -> Seq<KeyView> {
        let keys = in_order::<Key>(self.known.dom());
        unseen_first(keys, self.seen, keys.len())
    }

    /// The deletions of the keys that the list does not hold.
    pub open spec fn deletions(self) -> Seq<SyncerEventView> {
        Seq::new(
            self.stale().len(),
            |i: int|
                update_event(self.stale()[i], self.known[self.stale()[i]], UpdateType::Deleted),
        )
    }

    /// The state after an event.
    pub open spec fn after(self, kind: ResourceKind, ev: WatchInput) -> WatchView {
        match ev {
            WatchInput::Init => WatchView { seen: Set::empty(), ..self },
            WatchInput::InitApply(obj) => WatchView {
                known: self.known.insert(key_of(kind, obj), content_of(obj)),
                seen: self.seen.insert(key_of(kind, obj)),
            },
            WatchInput::InitDone => WatchView {
                known: Map::new(
                    |k: KeyView| self.known.dom().contains(k) && self.seen.contains(k),
                    |k: KeyView| self.known[k],
                ),
                ..self
            },
            WatchInput::Apply(obj) => WatchView {
                known: self.known.insert(key_of(kind, obj), content_of(obj)),
                ..self
            },
            WatchInput::Delete(obj) => WatchView {
                known: self.known.remove(key_of(kind, obj)),
                ..self
            },
        }
    }

    /// What an event makes the syncer deliver.
    pub open spec fn delivered(self, kind: ResourceKind, ev: WatchInput) -> Seq<SyncerEventView> {
        match ev {
            WatchInput::Init => seq![SyncerEventView::Status(SyncStatus::ResyncInProgress)],
            WatchInput::InitApply(obj) => seq![
                update_event(key_of(kind, obj), content_of(obj), UpdateType::New),
            ],
            WatchInput::InitDone => self.deletions().push(
                SyncerEventView::Status(SyncStatus::InSync),
            ),
            WatchInput::Apply(obj) => seq![
                update_event(key_of(kind, obj), content_of(obj), UpdateType::Updated),
            ],
            WatchInput::Delete(obj) => seq![
                update_event(key_of(kind, obj), content_of(obj), UpdateType::Deleted),
            ],
        }
    }
}

/// The state of a watch of one kind.
pub struct WatchState {
    /// What was delivered and not deleted, by key.
    pub known: OrdMap<Key, KnownObj>,
    /// The keys of the list that is being delivered.
    pub seen_this_sync: OrdMap<Key, ()>,
}

impl Default for WatchState {
    fn default() -> (r: Self)
        ensures
            r.wf(),
            r.state() == WatchView::initial(),
    {
        let r = WatchState { known: OrdMap::new(), seen_this_sync: OrdMap::new() };
        assert(r.state() =~= WatchView::initial());
        r
    }
}

impl WatchState {
    /// Both maps are well-formed.
    pub open spec fn wf(&self) -> bool {
        self.known.wf() && self.seen_this_sync.wf()
    }

    /// The mathematical state.
    pub open spec fn state(&self) -> WatchView {
        WatchView { known: deep_map(self.known.map()), seen: self.seen_this_sync.map().dom() }
    }

    /// Remembers what an update delivered of its key. A deletion and a status are not
    /// remembered.
    pub fn remember(&mut self, ev: &SyncerEvent)
        requires
            old(self).wf(),
        ensures
            final(self).wf(),
            final(self).state() == match ev.deep_view() {
                SyncerEventView::Update { key, spec, revision, update_type, labels } => {
                    if update_type == UpdateType::Deleted {
                        old(self).state()
                    } else {
                        WatchView {
                            known: old(self).state().known.insert(
                                key,
                                KnownObjView { spec, revision, labels },
                            ),
                            ..old(self).state()
                        }
                    }
                },
                SyncerEventView::Status(_) => old(self).state(),
            },
    {
        if let SyncerEvent::Update { key, spec, revision, update_type, labels } = ev {
            if *update_type != UpdateType::Deleted {
                let obj = KnownObj {
                    spec: spec.clone(),
                    revision: *revision,
                    labels: labels.clone(),
                };
                assert(obj.deep_view().labels =~= labels.deep_view());
                self.known.insert(key.clone(), obj);
            }
        }
    }

    /// Takes in one event of the watch, and gives what is to be delivered.
    pub fn on_event(&mut self, kind: ResourceKind, ev: WatchInput) -> (r: Vec<SyncerEvent>)
        requires
            old(self).wf(),
        ensures
            final(self).wf(),
            final(self).state() == old(self).state().after(kind, ev),
            r.deep_view() == old(self).state().delivered(kind, ev),
    {
        let ghost before = self.state();
        let mut out: Vec<SyncerEvent> = Vec::new();
        assert(out.deep_view() =~= Seq::<SyncerEventView>::empty());
        match ev {
            WatchInput::Init => {
                self.seen_this_sync = OrdMap::new();
                push_item(&mut out, SyncerEvent::Status(SyncStatus::ResyncInProgress));
                assert(self.state() =~= before.after(kind, ev));
            },
            WatchInput::InitApply(obj) => {
                let event = update(kind, obj, UpdateType::New);
                self.note_seen(&event);
                self.remember(&event);
                push_item(&mut out, event);
                assert(self.state() =~= before.after(kind, ev));
            },
            WatchInput::InitDone => {
                out = self.drop_stale();
                push_item(&mut out, SyncerEvent::Status(SyncStatus::InSync));
                assert(self.state() =~= before.after(kind, ev));
            },
            WatchInput::Apply(obj) => {
                let event = update(kind, obj, UpdateType::Updated);
                self.remember(&event);
                push_item(&mut out, event);
                assert(self.state() =~= before.after(kind, ev));
            },
            WatchInput::Delete(obj) => {
                let event = update(kind, obj, UpdateType::Deleted);
                if let SyncerEvent::Update { key, .. } = &event {
                    let _ = self.known.remove(key);
                }
                push_item(&mut out, event);
                assert(self.state() =~= before.after(kind, ev));
            },
        }
        assert(out.deep_view() =~= before.delivered(kind, ev));
        out
    }

    /// Notes the key of an update as seen.
    fn note_seen(&mut self, ev: &SyncerEvent)
        requires
            old(self).wf(),
            ev is Update,
        ensures
            final(self).wf(),
            final(self).known == old(self).known,
            ev.deep_view() matches SyncerEventView::Update { key, .. } && final(self).state().seen
                == old(self).state().seen.insert(key),
    {
        if let SyncerEvent::Update { key, .. } = ev {
            self.seen_this_sync.insert(key.clone(), ());
            assert(self.seen_this_sync.map().dom() =~= old(self).state().seen.insert(
                key.deep_view(),
            ));
        }
    }

    /// Forgets the keys that the list does not hold, and gives their deletions.
    fn drop_stale(&mut self) -> (r: Vec<SyncerEvent>)
        requires
            old(self).wf(),
        ensures
            final(self).wf(),
            final(self).seen_this_sync == old(self).seen_this_sync,
            r.deep_view() == old(self).state().deletions(),
            final(self).state().known == (Map::new(
                |k: KeyView|
                    old(self).state().known.dom().contains(k) && old(self).state().seen.contains(k),
                |k: KeyView| old(self).state().known[k],
            )),
    {
        let ghost before = self.state();
        let ghost keys = in_order::<Key>(before.known.dom());
        proof {
            lemma_keys_in_order(self.known);
            assert(before.known.dom() =~= self.known.map().dom());
        }
        let mut stale: Vec<Key> = Vec::new();
        assert(stale.deep_view() =~= Seq::<KeyView>::empty());
        for i in 0..self.known.entries.len()
            invariant
                self.wf(),
                before == self.state(),
                keys == Seq::new(
                    self.known.entries@.len(),
                    |i: int| self.known.entries@[i].0.deep_view(),
                ),
                stale.deep_view() == unseen_first(keys, before.seen, i as nat),
        {
            let key = &self.known.entries[i].0;
            assert(keys[i as int] == key.deep_view());
            if !self.seen_this_sync.contains(key) {
                push_item(&mut stale, key.clone());
            }
        }
        let ghost sv = before.stale();
        assert(stale.deep_view() == sv);
        proof {
            lemma_unseen(keys, before.seen, keys.len());
        }
        let mut out: Vec<SyncerEvent> = Vec::new();
        assert(out.deep_view() =~= before.deletions().take(0));
        assert(before.known =~= without(before.known, sv.take(0)));
        for i in 0..stale.len()
            invariant
                self.wf(),
                self.seen_this_sync == old(self).seen_this_sync,
                sv == before.stale(),
                stale.deep_view() == sv,
                forall|a: int, b: int| 0 <= a < b < sv.len() ==> sv[a] != sv[b],
                forall|a: int| 0 <= a < sv.len() ==> before.known.dom().contains(#[trigger] sv[a]),
                deep_map(self.known.map()) == without(before.known, sv.take(i as int)),
                out.deep_view() == before.deletions().take(i as int),
        {
            let key = &stale[i];
            let ghost k = key.deep_view();
            assert(sv[i as int] == k);
            assert(!sv.take(i as int).contains(k)) by {
                if sv.take(i as int).contains(k) {
                    let a = sv.take(i as int).index_of(k);
                    assert(sv[a] == sv[i as int]);
                }
            }
            let ghost now = deep_map(self.known.map());
            assert(now.dom().contains(k));
            let ghost map_now = self.known.map();
            assert(map_now.dom().contains(k));
            match self.known.remove(key) {
                Some(obj) => {
                    assert(now[k] == obj.deep_view());
                    push_item(
                        &mut out,
                        SyncerEvent::Update {
                            key: key.clone(),
                            spec: obj.spec,
                            revision: obj.revision,
                            update_type: UpdateType::Deleted,
                            labels: obj.labels,
                        },
                    );
                },
                None => {},
            }
            proof {
                assert forall|q: KeyView| sv.take(i + 1).contains(q) <==> sv.take(i as int).contains(q)
                    || q == k by {
                    if sv.take(i + 1).contains(q) {
                        let a = sv.take(i + 1).index_of(q);
                        if a < i {
                            assert(sv.take(i as int)[a] == q);
                        }
                    }
                    if sv.take(i as int).contains(q) {
                        let a = sv.take(i as int).index_of(q);
                        assert(sv.take(i + 1)[a] == q);
                    }
                    assert(sv.take(i + 1)[i as int] == k);
                }
            }
            assert(deep_map(self.known.map()) =~= without(before.known, sv.take(i + 1)));
            assert(out.deep_view() =~= before.deletions().take(i + 1));
        }
        proof {
            assert(sv.take(sv.len() as int) =~= sv);
            assert(before.deletions().take(sv.len() as int) =~= before.deletions());
            let want = Map::new(
                |k: KeyView| before.known.dom().contains(k) && before.seen.contains(k),
                |k: KeyView| before.known[k],
            );
            assert forall|k: KeyView|
                #![trigger want.dom().contains(k)]
                #![trigger deep_map(self.known.map()).dom().contains(k)]
                want.dom().contains(k) <==> deep_map(self.known.map()).dom().contains(k) by {
                if before.known.dom().contains(k) {
                    assert(keys.contains(k));
                    assert(keys.take(keys.len() as int) =~= keys);
                    if !before.seen.contains(k) {
                        assert(sv.contains(k));
                    }
                    if sv.contains(k) {
                        let a = sv.index_of(k);
                        assert(!before.seen.contains(sv[a]));
                    }
                }
            }
            assert(deep_map(self.known.map()) =~= want);
        }
        out
    }
}

/// A map without the given keys.
spec fn without(m: Map<KeyView, KnownObjView>, keys: Seq<KeyView>) -> Map<KeyView, KnownObjView> {
    Map::new(|k: KeyView| m.dom().contains(k) && !keys.contains(k), |k: KeyView| m[k])
}

/// What the unseen ones of the first `n` keys are.
proof fn lemma_unseen(keys: Seq<KeyView>, seen: Set<KeyView>, n: nat)
    requires
        n <= keys.len(),
        forall|i: int, j: int|
            0 <= i < j < keys.len() ==> <Key as MapKey>::less(#[trigger] keys[i], #[trigger] keys[j]),
    ensures
        ({
            let u = unseen_first(keys, seen, n);
            &&& forall|a: int, b: int|
                0 <= a < b < u.len() ==> <Key as MapKey>::less(#[trigger] u[a], #[trigger] u[b])
            &&& forall|a: int, b: int| 0 <= a < b < u.len() ==> u[a] != u[b]
            &&& forall|a: int|
                0 <= a < u.len() ==> !seen.contains(#[trigger] u[a]) && keys.take(
                    n as int,
                ).contains(u[a]) && keys.contains(u[a])
            &&& forall|k: KeyView|
                keys.take(n as int).contains(k) && !seen.contains(k) ==> #[trigger] u.contains(k)
        }),
    decreases n,
{
    let u = unseen_first(keys, seen, n);
    if n > 0 {
        let m = (n - 1) as nat;
        lemma_unseen(keys, seen, m);
        let head = unseen_first(keys, seen, m);
        let y = keys[n - 1];
        let t = keys.take(n as int);
        let s = keys.take(m as int);
        assert(t =~= s.push(y));
        assert(t[m as int] == y);
        assert forall|a: int, b: int| 0 <= a < b < u.len() implies <Key as MapKey>::less(
            #[trigger] u[a],
            #[trigger] u[b],
        ) by {
            if b < head.len() {
                assert(u[a] == head[a] && u[b] == head[b]);
            } else {
                assert(u[b] == y);
                assert(u[a] == head[a]);
                let i = s.index_of(head[a]);
                assert(keys[i] == head[a]);
                assert(<Key as MapKey>::less(keys[i], keys[n - 1]));
            }
        }
        assert forall|a: int| 0 <= a < u.len() implies !seen.contains(#[trigger] u[a])
            && t.contains(u[a]) && keys.contains(u[a]) by {
            if a < head.len() {
                assert(u[a] == head[a]);
                let i = s.index_of(head[a]);
                assert(t[i] == head[a]);
            } else {
                assert(u[a] == y);
                assert(keys[n - 1] == y);
            }
        }
        assert forall|k: KeyView| t.contains(k) && !seen.contains(k) implies #[trigger] u.contains(
            k,
        ) by {
            let i = t.index_of(k);
            if i < m {
                assert(s[i] == k);
                assert(s.contains(k));
                assert(head.contains(k));
                let a = head.index_of(k);
                assert(u[a] == k);
            } else {
                assert(u[head.len() as int] == y);
            }
        }
        assert forall|a: int, b: int| 0 <= a < b < u.len() implies u[a] != u[b] by {
            assert(<Key as MapKey>::less(u[a], u[b]));
            <Key as MapKey>::less_irreflexive(u[a]);
        }
    }
}

/// When a list is complete, exactly the keys that were delivered before and that the list
/// does not hold are deleted, each once and with its last content, in ascending order of
/// the names; afterwards everything known is in the list.
pub proof fn law_relist_deletes_what_vanished(st: WatchState, kind: ResourceKind)
    requires
        st.wf(),
    ensures
        ({
            let s = st.state();
            let out = s.delivered(kind, WatchInput::InitDone);
            let end = s.after(kind, WatchInput::InitDone);
            let stale = s.stale();
            &&& out.len() == stale.len() + 1
            &&& out.last() == SyncerEventView::Status(SyncStatus::InSync)
            &&& forall|i: int|
                0 <= i < stale.len() ==> #[trigger] out[i] == update_event(
                    stale[i],
                    s.known[stale[i]],
                    UpdateType::Deleted,
                )
            &&& forall|k: KeyView|
                #[trigger] stale.contains(k) <==> s.known.dom().contains(k) && !s.seen.contains(k)
            &&& forall|a: int, b: int| 0 <= a < b < stale.len() ==> stale[a] != stale[b]
            &&& forall|a: int, b: int|
                0 <= a < b < stale.len() ==> !text_less(
                    name_of(#[trigger] stale[b]),
                    name_of(#[trigger] stale[a]),
                )
            &&& forall|k: KeyView|
                #[trigger] end.known.dom().contains(k) ==> s.seen.contains(k) && end.known[k]
                    == s.known[k]
        }),
{
    let s = st.state();
    let keys = in_order::<Key>(s.known.dom());
    lemma_keys_in_order(st.known);
    assert(s.known.dom() =~= st.known.map().dom());
    lemma_unseen(keys, s.seen, keys.len());
    assert(keys.take(keys.len() as int) =~= keys);
    let stale = s.stale();
    assert forall|k: KeyView| #[trigger] stale.contains(k) <==> s.known.dom().contains(k)
        && !s.seen.contains(k) by {
        if stale.contains(k) {
            let i = stale.index_of(k);
            assert(keys.contains(stale[i]));
        }
        if s.known.dom().contains(k) && !s.seen.contains(k) {
            assert(keys.contains(k));
        }
    }
    assert forall|a: int, b: int| 0 <= a < b < stale.len() implies !text_less(
        name_of(#[trigger] stale[b]),
        name_of(#[trigger] stale[a]),
    ) by {
        crate::model::law_keys_ascend_by_name(stale[a], stale[b]);
    }
}

/// A key whose deletion was delivered is not deleted again by a list without it.
pub proof fn law_no_second_deletion(st: WatchState, kind: ResourceKind, obj: ObjectFacts)
    requires
        st.wf(),
    ensures
        ({
            let end = st.state().after(kind, WatchInput::Delete(obj)).after(kind, WatchInput::Init);
            !end.stale().contains(key_of(kind, obj))
        }),
{
    let k = key_of(kind, obj);
    let end = st.state().after(kind, WatchInput::Delete(obj)).after(kind, WatchInput::Init);
    let keys = in_order::<Key>(end.known.dom());
    lemma_keys_without(st.known, k);
    assert(end.known.dom() =~= st.known.map().remove(k).dom());
    lemma_unseen(keys, end.seen, keys.len());
    if end.stale().contains(k) {
        let i = end.stale().index_of(k);
        assert(keys.contains(end.stale()[i]));
        assert(end.known.dom().contains(k));
    }
}

/// A list that holds every key that was delivered deletes nothing.
pub proof fn law_complete_list_deletes_nothing(st: WatchState)
    requires
        st.wf(),
        forall|k: KeyView| #[trigger]
            st.state().known.dom().contains(k) ==> st.state().seen.contains(k),
    ensures
        st.state().stale().len() == 0,
        st.state().deletions().len() == 0,
{
    let s = st.state();
    law_relist_deletes_what_vanished(st, ResourceKind::Node);
    if s.stale().len() > 0 {
        assert(s.stale().contains(s.stale()[0]));
    }
}

/// What whoever takes the events in holds after one more: an update puts its content in
/// place, a deletion takes the key out, a status changes nothing.
pub open spec fn applied(
    held: Map<KeyView, KnownObjView>,
    ev: SyncerEventView,
) -> Map<KeyView, KnownObjView> {
    match ev {
        SyncerEventView::Status(_) => held,
        SyncerEventView::Update { key, spec, revision, update_type, labels } => if update_type
            == UpdateType::Deleted {
            held.remove(key)
        } else {
            held.insert(key, KnownObjView { spec, revision, labels })
        },
    }
}

/// What whoever takes the events in holds after all of them.
pub open spec fn applied_all(
    held: Map<KeyView, KnownObjView>,
    events: Seq<SyncerEventView>,
) -> Map<KeyView, KnownObjView>
    decreases events.len(),
{
    if events.len() == 0 {
        held
    } else {
        applied(applied_all(held, events.drop_last()), events.last())
    }
}

/// What the first `n` deletions leave.
proof fn lemma_deletions_applied(s: WatchView, n: nat)
    requires
        n <= s.stale().len(),
    ensures
        applied_all(s.known, s.deletions().take(n as int)) == without(
            s.known,
            s.stale().take(n as int),
        ),
    decreases n,
{
    let stale = s.stale();
    let d = s.deletions();
    if n == 0 {
        assert(applied_all(s.known, d.take(0)) =~= without(s.known, stale.take(0)));
    } else {
        let m = (n - 1) as nat;
        lemma_deletions_applied(s, m);
        assert(d.take(n as int).drop_last() =~= d.take(m as int));
        assert(d.take(n as int).last() == d[m as int]);
        assert forall|k: KeyView| #[trigger]
            stale.take(n as int).contains(k) <==> stale.take(m as int).contains(k) || k
                == stale[m as int] by {
            if stale.take(n as int).contains(k) {
                let i = stale.take(n as int).index_of(k);
                if i < m {
                    assert(stale.take(m as int)[i] == k);
                }
            }
            if stale.take(m as int).contains(k) {
                let i = stale.take(m as int).index_of(k);
                assert(stale.take(n as int)[i] == k);
            }
            assert(stale.take(n as int)[m as int] == stale[m as int]);
        }
        assert(without(s.known, stale.take(m as int)).remove(stale[m as int]) =~= without(
            s.known,
            stale.take(n as int),
        ));
    }
}

/// Whoever takes in what is delivered holds exactly what the watch knows, after every event
/// as before it: nothing that has vanished lingers, and nothing that is there is lost.
pub proof fn law_delivery_keeps_in_step(st: WatchState, kind: ResourceKind, ev: WatchInput)
    requires
        st.wf(),
    ensures
        applied_all(st.state().known, st.state().delivered(kind, ev)) == st.state().after(
            kind,
            ev,
        ).known,
{
    let s = st.state();
    let out = s.delivered(kind, ev);
    match ev {
        WatchInput::InitDone => {
            law_relist_deletes_what_vanished(st, kind);
            lemma_deletions_applied(s, s.stale().len());
            assert(s.deletions().take(s.stale().len() as int) =~= s.deletions());
            assert(s.stale().take(s.stale().len() as int) =~= s.stale());
            assert(out.drop_last() =~= s.deletions());
            assert(out.last() == SyncerEventView::Status(SyncStatus::InSync));
            assert(without(s.known, s.stale()) =~= s.after(kind, ev).known);
        },
        _ => {
            assert(out.drop_last() =~= Seq::<SyncerEventView>::empty());
            assert(applied_all(s.known, out.drop_last()) == s.known);
            assert(applied_all(s.known, out) =~= s.after(kind, ev).known);
        },
    }
}

/// The state after the first `n` objects of a list.
pub open spec fn after_listing(
    s: WatchView,
    kind: ResourceKind,
    objects: Seq<ObjectFacts>,
    n: nat,
) -> WatchView
    decreases n,
{
    if n == 0 {
        s
    } else {
        after_listing(s, kind, objects, (n - 1) as nat).after(
            kind,
            WatchInput::InitApply(objects[n - 1]),
        )
    }
}

/// The content of the first `n` objects of a list, by key.
pub open spec fn listed(kind: ResourceKind, objects: Seq<ObjectFacts>, n: nat) -> Map<
    KeyView,
    KnownObjView,
>
    decreases n,
{
    if n == 0 {
        Map::empty()
    } else {
        listed(kind, objects, (n - 1) as nat).insert(
            key_of(kind, objects[n - 1]),
            content_of(objects[n - 1]),
        )
    }
}

/// What the first objects of a list leave behind.
proof fn lemma_after_listing(s: WatchView, kind: ResourceKind, objects: Seq<ObjectFacts>, n: nat)
    requires
        n <= objects.len(),
        s.seen == Set::<KeyView>::empty(),
    ensures
        ({
            let e = after_listing(s, kind, objects, n);
            let l = listed(kind, objects, n);
            &&& forall|k: KeyView| #[trigger] e.seen.contains(k) <==> l.dom().contains(k)
            &&& forall|k: KeyView| #[trigger]
                l.dom().contains(k) ==> e.known.dom().contains(k) && e.known[k] == l[k]
        }),
    decreases n,
{
    let e = after_listing(s, kind, objects, n);
    let l = listed(kind, objects, n);
    if n > 0 {
        let m = (n - 1) as nat;
        lemma_after_listing(s, kind, objects, m);
        let f = after_listing(s, kind, objects, m);
        let g = listed(kind, objects, m);
        let x = key_of(kind, objects[n - 1]);
        assert forall|k: KeyView| #[trigger] e.seen.contains(k) <==> l.dom().contains(k) by {
            assert(e.seen.contains(k) == (f.seen.contains(k) || k == x));
            assert(l.dom().contains(k) == (g.dom().contains(k) || k == x));
        }
        assert forall|k: KeyView| #[trigger] l.dom().contains(k) implies e.known.dom().contains(k)
            && e.known[k] == l[k] by {
            if k != x {
                assert(g.dom().contains(k));
            }
        }
    }
}

/// A complete list replaces everything: whatever was known before, afterwards exactly the
/// listed objects are known, each with its content in the list.
pub proof fn law_list_replaces_everything(
    s: WatchView,
    kind: ResourceKind,
    objects: Seq<ObjectFacts>,
)
    ensures
        after_listing(s.after(kind, WatchInput::Init), kind, objects, objects.len()).after(
            kind,
            WatchInput::InitDone,
        ).known == listed(kind, objects, objects.len()),
{
    let start = s.after(kind, WatchInput::Init);
    lemma_after_listing(start, kind, objects, objects.len());
    let e = after_listing(start, kind, objects, objects.len());
    let l = listed(kind, objects, objects.len());
    assert(e.after(kind, WatchInput::InitDone).known =~= l);
}

/// The data event of a backend's watch that an event of the syncer becomes: a status is
/// left out.
pub fn watch_event(ev: SyncerEvent) -> (r: Option<crate::backend::WatchEvent>)
    ensures
        match ev {
            SyncerEvent::Status(_) => r is None,
            SyncerEvent::Update { key, spec, revision, update_type, labels: _ } => r
                matches Some(w) && w.kv.key == key && w.kv.value == spec && w.kv.revision == Some(
                revision,
            ) && w.event_type == update_type,
        },
{
    match ev {
        SyncerEvent::Status(_) => None,
        SyncerEvent::Update { key, spec, revision, update_type, labels: _ } => Some(
            crate::backend::WatchEvent {
                kv: KVPair::with_revision(key, spec, revision),
                event_type: update_type,
            },
        ),
    }
}

/// Whether an event tells of an object what the object says: its place, its specification,
/// its labels and its revision.
pub open spec fn tells_of(ev: SyncerEventView, kind: ResourceKind, obj: ObjectFacts) -> bool {
    &&& ev is Update
    &&& ev->key matches KeyView::Resource { kind: k, namespace, name }
    &&& k == kind
    &&& namespace == obj.namespace.deep_view()
    &&& obj.name is Some ==> name == obj.name->0@
    &&& obj.name is None ==> name.len() == 0
    &&& ev->spec == obj.spec
    &&& obj.labels is Some ==> ev->labels == obj.labels->0.deep_view()
    &&& obj.labels is None ==> ev->labels.len() == 0
    &&& obj.resource_version is None ==> ev->revision == 0
    &&& forall|n: u64|
        obj.resource_version is Some && obj.resource_version->0@ == #[trigger] decimal(n as nat)
            ==> ev->revision == n
}

/// Each object that the watch tells of is delivered once, as it is: as new while the objects
/// are listed, as updated or deleted afterwards. The beginning of a listing is reported before
/// any of it, and its end behind the deletions of what the listing left out.
pub proof fn law_events_tell_of_their_objects(s: WatchView, kind: ResourceKind, ev: WatchInput)
    ensures
        ({
            let out = s.delivered(kind, ev);
            match ev {
                WatchInput::Init => out == seq![
                    SyncerEventView::Status(SyncStatus::ResyncInProgress),
                ],
                WatchInput::InitApply(obj) => out.len() == 1 && tells_of(out[0], kind, obj)
                    && out[0]->update_type == UpdateType::New,
                WatchInput::Apply(obj) => out.len() == 1 && tells_of(out[0], kind, obj)
                    && out[0]->update_type == UpdateType::Updated,
                WatchInput::Delete(obj) => out.len() == 1 && tells_of(out[0], kind, obj)
                    && out[0]->update_type == UpdateType::Deleted,
                WatchInput::InitDone => {
                    &&& out.len() > 0
                    &&& out.last() == SyncerEventView::Status(SyncStatus::InSync)
                    &&& forall|i: int|
                        0 <= i < out.len() - 1 ==> (#[trigger] out[i]) is Update
                            && out[i]->update_type == UpdateType::Deleted
                },
            }
        }),
{
    assert forall|n: u64| revision_of(Some(#[trigger] decimal(n as nat))) == n by {
        crate::kdd::law_revision_token_round_trips(n);
    }
}

/// What a listing left out is deleted with what was last known of it: its key, its
/// specification, its labels and its revision.
pub proof fn law_vanished_objects_are_deleted_as_they_were(
    st: WatchState,
    kind: ResourceKind,
    k: KeyView,
)
    requires
        st.wf(),
        st.state().known.dom().contains(k),
        !st.state().seen.contains(k),
    ensures
        ({
            let s = st.state();
            let out = s.delivered(kind, WatchInput::InitDone);
            exists|i: int|
                {
                    &&& 0 <= i < out.len()
                    &&& (#[trigger] out[i]) is Update
                    &&& out[i]->key == k
                    &&& out[i]->spec == s.known[k].spec
                    &&& out[i]->revision == s.known[k].revision
                    &&& out[i]->labels == s.known[k].labels
                    &&& out[i]->update_type == UpdateType::Deleted
                }
        }),
{
    let s = st.state();
    law_relist_deletes_what_vanished(st, kind);
    assert(s.stale().contains(k));
    let i = s.stale().index_of(k);
    let out = s.delivered(kind, WatchInput::InitDone);
    assert(out[i] == update_event(k, s.known[k], UpdateType::Deleted));
}

} // verus!
