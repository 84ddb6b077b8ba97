//! The typed datastore, and a backend in memory.

use crate::cas::{lists_prefix, CasError, CasStore, Revision, StoreView};
use crate::kdd::KddValue;
use crate::mem::MemStore;
use crate::model::{
    cidr_to_token, cidr_token, law_plurals_are_distinct, lemma_plural_marks, KVPair, Key, KeyView,
    ResourceKind,
};
use crate::syncer::UpdateType;
use crate::text::{
    ascii_lowercase, clone_opt, decimal, decimal_text, has_prefix, lowercase, str_eq, to_chars,
};
use serde_json::Value;
use vstd::prelude::*;
use vstd::utf8::is_ascii_chars;

verus! {

broadcast use {
    crate::ordmap::lemma_deep_insert,
    crate::ordmap::lemma_deep_remove,
};

/// Why a backend refused.
#[derive(Debug, PartialEq, Eq)]
pub enum DsError {
    /// The stored revision is not the given one; read again and retry.
    ResourceUpdateConflict,
    /// There is no such resource.
    ResourceDoesNotExist,
    /// There is such a resource already.
    ResourceAlreadyExists,
    /// The backend cannot do this.
    OperationNotSupported,
    /// The datastore failed.
    Datastore(String),
}

impl Clone for DsError {
    fn clone(&self) -> (r: Self)
        ensures
            r == *self,
    {
        match self {
            DsError::ResourceUpdateConflict => DsError::ResourceUpdateConflict,
            DsError::ResourceDoesNotExist => DsError::ResourceDoesNotExist,
            DsError::ResourceAlreadyExists => DsError::ResourceAlreadyExists,
            DsError::OperationNotSupported => DsError::OperationNotSupported,
            DsError::Datastore(s) => DsError::Datastore(s.clone()),
        }
    }
}

impl DsError {
    /// The refusal in words.
    pub fn text(&self) -> (r: String)
        ensures
            r@ == (match self {
                DsError::ResourceUpdateConflict => "resource update conflict"@,
                DsError::ResourceDoesNotExist => "resource does not exist"@,
                DsError::ResourceAlreadyExists => "resource already exists"@,
                DsError::OperationNotSupported => "operation not supported"@,
                DsError::Datastore(s) => "datastore error: "@ + s@,
            }),
    {
        match self {
            DsError::ResourceUpdateConflict => "resource update conflict".to_owned(),
            DsError::ResourceDoesNotExist => "resource does not exist".to_owned(),
            DsError::ResourceAlreadyExists => "resource already exists".to_owned(),
            DsError::OperationNotSupported => "operation not supported".to_owned(),
            DsError::Datastore(e) => {
                let mut s = "datastore error: ".to_owned();
                s.push_str(e.as_str());
                s
            },
        }
    }
}

/// What the refusal of a store is for a backend.
pub open spec fn ds_error(e: CasError) -> DsError {
    match e {
        CasError::NotFound => DsError::ResourceDoesNotExist,
        CasError::AlreadyExists => DsError::ResourceAlreadyExists,
        CasError::Conflict { expected: _, actual: _ } => DsError::ResourceUpdateConflict,
        CasError::Backend(s) => DsError::Datastore(s),
    }
}

impl From<CasError> for DsError {
    fn from(e: CasError) -> (r: Self) {
        match e {
            CasError::NotFound => DsError::ResourceDoesNotExist,
            CasError::AlreadyExists => DsError::ResourceAlreadyExists,
            CasError::Conflict { expected: _, actual: _ } => DsError::ResourceUpdateConflict,
            CasError::Backend(s) => DsError::Datastore(s),
        }
    }
}

impl vstd::std_specs::convert::FromSpecImpl<CasError> for DsError {
    open spec fn obeys_from_spec() -> bool {
        true
    }

    open spec fn from_spec(e: CasError) -> Self {
        ds_error(e)
    }
}

/// Which resources are listed or watched.
#[derive(Debug, PartialEq, Eq)]
pub struct ListOptions {
    /// Their kind.
    pub kind: ResourceKind,
    /// Their namespace; all where there is none.
    pub namespace: Option<String>,
    /// The name of a single one.
    pub name: Option<String>,
}

impl ListOptions {
    /// All resources of a kind.
    pub fn kind(kind: ResourceKind) -> (r: Self)
        ensures
            r.kind == kind,
            r.namespace is None,
            r.name is None,
    {
        ListOptions { kind, namespace: None, name: None }
    }

    /// Those of one namespace.
    pub fn in_namespace(self, namespace: &str) -> (r: Self)
        ensures
            r.kind == self.kind,
            r.namespace.deep_view() == Some(namespace@),
            r.name == self.name,
    {
        ListOptions { namespace: Some(namespace.to_owned()), ..self }
    }

    /// The one with the given name.
    pub fn named(self, name: &str) -> (r: Self)
        ensures
            r.kind == self.kind,
            r.namespace == self.namespace,
            r.name.deep_view() == Some(name@),
    {
        ListOptions { name: Some(name.to_owned()), ..self }
    }
}

/// What was listed, and the revision of the list.
#[derive(Debug, PartialEq, Eq)]
pub struct KVPairList {
    /// The resources.
    pub items: Vec<KVPair<Value>>,
    /// The revision that the list was taken at.
    pub revision: Revision,
}

/// One event of a watch.
#[derive(Debug, PartialEq, Eq)]
pub struct WatchEvent {
    /// The resource.
    pub kv: KVPair<Value>,
    /// What happened to it.
    pub event_type: UpdateType,
}

/// Whether a resource name may hold a character: a lower-case letter, a digit, `-` or `.`.
pub open spec fn is_name_char(c: char) -> bool {
    ('a' <= c && c <= 'z') || ('0' <= c && c <= '9') || c == '-' || c == '.'
}

/// The character itself where a resource name may hold it, else `-`.
pub open spec fn name_char(c: char) -> char {
    if is_name_char(c) {
        c
    } else {
        '-'
    }
}

/// A text in lower case as a resource name: at most 253 characters, each a lower-case
/// letter, a digit, `-` or `.`.
pub open spec fn resource_name(lower: Seq<char>) -> Seq<char> {
    let s = Seq::new(lower.len(), |i: int| name_char(lower[i]));
    if s.len() <= 253 {
        s
    } else {
        s.take(253)
    }
}

/// A text in lower case as a resource name.
pub fn sanitize_lower(lower: &str) -> (r: String)
    ensures
        r@ == resource_name(lower@),
{
    let v = to_chars(lower);
    let n: usize = if v.len() < 253 {
        v.len()
    } else {
        253
    };
    let mut out = String::new();
    for i in 0..n
        invariant
            v@ == lower@,
            n <= v.len(),
            n <= 253,
            v.len() < 253 ==> n == v.len(),
            v.len() >= 253 ==> n == 253,
            out@ == resource_name(lower@).take(i as int),
    {
        let c = v[i];
        if ('a' <= c && c <= 'z') || ('0' <= c && c <= '9') || c == '-' || c == '.' {
            out.push(c);
        } else {
            out.push('-');
        }
        assert(out@ =~= resource_name(lower@).take(i + 1));
    }
    assert(out@ =~= resource_name(lower@));
    out
}

/// An arbitrary text as a resource name: in lower case, and cut to what a name may hold.
pub fn sanitize_name(s: &str) -> (r: String)
    ensures
        r@ == resource_name(lowercase(s@)),
{
    let lower = s.to_lowercase();
    sanitize_lower(lower.as_str())
}

/// Every text becomes a resource name: of at most 253 characters, all of which a name may
/// hold. A text that is one already stays as it is, so a second call changes nothing.
pub proof fn law_names_are_sanitized(s: Seq<char>)
    ensures
        ({
            let r = resource_name(lowercase(s));
            &&& r.len() <= 253
            &&& forall|i: int| 0 <= i < r.len() ==> is_name_char(#[trigger] r[i])
            &&& resource_name(lowercase(r)) == r
            &&& s.len() <= 253 && (forall|i: int| 0 <= i < s.len() ==> is_name_char(#[trigger] s[i]))
                ==> r == s
        }),
{
    let r = resource_name(lowercase(s));
    lemma_name_stays(r);
    if s.len() <= 253 && (forall|i: int| 0 <= i < s.len() ==> is_name_char(#[trigger] s[i])) {
        lemma_name_stays(s);
    }
}

/// A resource name stays as it is.
proof fn lemma_name_stays(s: Seq<char>)
    requires
        s.len() <= 253,
        forall|i: int| 0 <= i < s.len() ==> is_name_char(#[trigger] s[i]),
    ensures
        resource_name(lowercase(s)) == s,
{
    assert(is_ascii_chars(s)) by {
        assert forall|i: int| 0 <= i < s.len() implies '\0' <= #[trigger] s[i] <= '\u{7f}' by {
            assert(is_name_char(s[i]));
        }
    }
    assert forall|i: int| 0 <= i < s.len() implies #[trigger] ascii_lowercase(s)[i] == s[i] by {
        assert(is_name_char(s[i]));
    }
    assert(ascii_lowercase(s) =~= s);
    assert(resource_name(s) =~= s);
}

/// The kind, the namespace and the name of the resource that a key stands for.
pub open spec fn key_target(key: KeyView) -> (ResourceKind, Option<Seq<char>>, Seq<char>) {
    match key {
        KeyView::Resource { kind, namespace, name } => (kind, namespace, name),
        KeyView::Block { cidr } => (ResourceKind::IpamBlock, None, cidr_token(cidr)),
        KeyView::BlockAffinity { host, cidr } => (
            ResourceKind::BlockAffinity,
            None,
            resource_name(lowercase(host + "-"@ + cidr_token(cidr))),
        ),
        KeyView::IpamHandle { id } => (
            ResourceKind::IpamHandle,
            None,
            resource_name(lowercase(id)),
        ),
    }
}

/// The kind, the namespace and the name of the resource that a key stands for.
pub fn key_to_target(key: &Key) -> (r: (ResourceKind, Option<String>, String))
    ensures
        (r.0, r.1.deep_view(), r.2@) == key_target(key.deep_view()),
{
    match key {
        Key::Resource { kind, namespace, name } => (*kind, clone_opt(namespace), name.clone()),
        Key::Block { cidr } => (ResourceKind::IpamBlock, None, cidr_to_token(cidr.as_str())),
        Key::BlockAffinity { host, cidr } => {
            let mut s = host.clone();
            s.push_str("-");
            s.push_str(cidr_to_token(cidr.as_str()).as_str());
            (ResourceKind::BlockAffinity, None, sanitize_name(s.as_str()))
        },
        Key::IpamHandle { id } => (ResourceKind::IpamHandle, None, sanitize_name(id.as_str())),
    }
}

/// The key of an item of a list: in its own namespace, and in that of the list where it
/// names none.
pub fn list_item_key(kind: ResourceKind, opts_namespace: &Option<String>, v: &KddValue) -> (r: Key)
    ensures
        r.deep_view() == (KeyView::Resource {
            kind,
            namespace: match v.namespace {
                Some(ns) => Some(ns@),
                None => opts_namespace.deep_view(),
            },
            name: v.name@,
        }),
{
    let namespace = match &v.namespace {
        Some(ns) => Some(ns.clone()),
        None => clone_opt(opts_namespace),
    };
    Key::Resource { kind, namespace, name: v.name.clone() }
}

/// The revision of a conditional update: it must be there, and 0 is none, since the API
/// would take it for any revision.
pub fn require_nonzero_revision(revision: Option<Revision>) -> (r: Result<Revision, DsError>)
    ensures
        match revision {
            Some(v) => if v != 0 {
                r == Ok::<Revision, DsError>(v)
            } else {
                r matches Err(DsError::Datastore(m)) && m@
                    == "update requires a valid non-zero revision for CAS"@
            },
            None => r matches Err(DsError::Datastore(m)) && m@
                == "update requires a valid non-zero revision for CAS"@,
        },
{
    match revision {
        Some(v) => {
            if v != 0 {
                return Ok(v);
            }
        },
        None => {},
    }
    Err(DsError::Datastore("update requires a valid non-zero revision for CAS".to_owned()))
}

/// The version token of a conditional update: the revision in decimal.
pub fn update_token(revision: Option<Revision>) -> (r: Result<String, DsError>)
    ensures
        match r {
            Ok(t) => revision matches Some(v) && v != 0 && t@ == decimal(v as nat),
            Err(e) => (revision is None || revision == Some(0u64)) && (e matches DsError::Datastore(m)
                && m@ == "update requires a valid non-zero revision for CAS"@),
        },
{
    match require_nonzero_revision(revision) {
        Ok(v) => Ok(decimal_text(v)),
        Err(e) => Err(e),
    }
}

/// How to bring a resource to a value, whether it is there or not.
#[derive(Debug, PartialEq, Eq)]
pub enum ApplyStep {
    /// Create it.
    Create,
    /// Replace it, on condition of the given version token.
    Update(String),
}

/// How to bring a resource to a value, given what is there.
pub fn apply_step(existing: &Option<KddValue>) -> (r: ApplyStep)
    ensures
        match existing {
            Some(v) => r == ApplyStep::Update(v.raw_revision),
            None => r == ApplyStep::Create,
        },
{
    match existing {
        Some(v) => ApplyStep::Update(v.raw_revision.clone()),
        None => ApplyStep::Create,
    }
}

/// The version token of a conditional deletion: that of the given revision, or, without
/// one, that of what is there.
pub fn delete_token(revision: Option<Revision>, existing: &Option<KddValue>) -> (r: Result<
    String,
    DsError,
>)
    ensures
        match revision {
            Some(v) => r matches Ok(t) && t@ == decimal(v as nat),
            None => match existing {
                Some(e) => r == Ok::<String, DsError>(e.raw_revision),
                None => r == Err::<String, DsError>(DsError::ResourceDoesNotExist),
            },
        },
{
    match revision {
        Some(v) => Ok(decimal_text(v)),
        None => match existing {
            Some(e) => Ok(e.raw_revision.clone()),
            None => Err(DsError::ResourceDoesNotExist),
        },
    }
}

/// The answer to a list of a single resource.
pub fn single_item_list(opts: &ListOptions, name: &str, found: Option<KddValue>) -> (r: KVPairList)
    ensures
        match found {
            None => r.items@.len() == 0 && r.revision == 0,
            Some(v) => r.items@.len() == 1 && r.revision == v.revision && r.items@[0].value == v.spec
                && r.items@[0].revision == Some(v.revision) && r.items@[0].key.deep_view()
                == (KeyView::Resource {
                kind: opts.kind,
                namespace: opts.namespace.deep_view(),
                name: name@,
            }),
        },
{
    let mut items: Vec<KVPair<Value>> = Vec::new();
    match found {
        None => KVPairList { items, revision: 0 },
        Some(v) => {
            let key = Key::Resource {
                kind: opts.kind,
                namespace: clone_opt(&opts.namespace),
                name: name.to_owned(),
            };
            items.push(KVPair::with_revision(key, v.spec, v.revision));
            KVPairList { items, revision: v.revision }
        },
    }
}

/// The largest revision of the first `n` values; 0 where there is none.
pub open spec fn max_revision(values: Seq<KddValue>, n: nat) -> Revision
    decreases n,
{
    if n == 0 {
        0
    } else {
        let m = max_revision(values, (n - 1) as nat);
        if values[n - 1].revision > m {
            values[n - 1].revision
        } else {
            m
        }
    }
}

/// The answer to a list of a whole kind: each value under its own key, and the largest of
/// their revisions.
pub fn collect_list(opts: &ListOptions, values: Vec<KddValue>) -> (r: KVPairList)
    ensures
        r.items@.len() == values@.len(),
        r.revision == max_revision(values@, values@.len()),
        forall|i: int|
            0 <= i < values@.len() ==> {
                let v = values@[i];
                let item = #[trigger] r.items@[i];
                &&& item.value == v.spec
                &&& item.revision == Some(v.revision)
                &&& item.key.deep_view() == (KeyView::Resource {
                    kind: opts.kind,
                    namespace: match v.namespace {
                        Some(ns) => Some(ns@),
                        None => opts.namespace.deep_view(),
                    },
                    name: v.name@,
                })
            },
{
    let mut items: Vec<KVPair<Value>> = Vec::new();
    let mut revision: Revision = 0;
    for i in 0..values.len()
        invariant
            items@.len() == i,
            revision == max_revision(values@, i as nat),
            forall|j: int|
                0 <= j < i ==> {
                    let v = values@[j];
                    let item = #[trigger] items@[j];
                    &&& item.value == v.spec
                    &&& item.revision == Some(v.revision)
                    &&& item.key.deep_view() == (KeyView::Resource {
                        kind: opts.kind,
                        namespace: match v.namespace {
                            Some(ns) => Some(ns@),
                            None => opts.namespace.deep_view(),
                        },
                        name: v.name@,
                    })
                },
    {
        let v = &values[i];
        if v.revision > revision {
            revision = v.revision;
        }
        let key = list_item_key(opts.kind, &opts.namespace, v);
        items.push(KVPair::with_revision(key, v.spec.clone(), v.revision));
    }
    KVPairList { items, revision }
}

/// What a [`MemBackend`] keeps under a path.
#[derive(Debug)]
pub struct Stored {
    /// The key.
    pub key: Key,
    /// The value.
    pub value: Value,
}

/// The mathematical content of a [`Stored`].
#[verifier::ext_equal]
pub struct StoredView {
    pub key: KeyView,
    pub value: Value,
}

impl DeepView for Stored {
    type V = StoredView;

    open spec fn deep_view(&self) -> StoredView {
        StoredView { key: self.key.deep_view(), value: self.value }
    }
}

impl Clone for Stored {
    fn clone(&self) -> (r: Self)
        ensures
            r.deep_view() == self.deep_view(),
    {
        Stored { key: self.key.clone(), value: self.value.clone() }
    }
}

/// A value with the revision of its write.
#[verifier::ext_equal]
pub struct Written {
    pub stored: StoredView,
    pub revision: Revision,
}

/// What a [`MemBackend`] holds.
#[verifier::ext_equal]
pub struct MemView {
    /// The resources, by path.
    pub entries: Map<Seq<char>, Written>,
    /// The revision of the next write.
    pub next: int,
}

impl MemView {
    /// What is held after a resource is written.
    pub open spec fn written(self, key: KeyView, value: Value) -> MemView {
        MemView {
            entries: self.entries.insert(
                key.path(),
                Written { stored: StoredView { key, value }, revision: self.next as u64 },
            ),
            next: self.next + 1,
        }
    }

    /// Why a conditional change is refused, if it is.
    pub open spec fn refusal(self, key: KeyView, revision: Revision) -> Option<DsError> {
        if !self.entries.dom().contains(key.path()) {
            Some(DsError::ResourceDoesNotExist)
        } else if self.entries[key.path()].revision != revision {
            Some(DsError::ResourceUpdateConflict)
        } else {
            None
        }
    }

    /// Whether a path belongs to what `opts` asks for: it lies under the kind, and under
    /// the namespace where there is one, and the resource has the name where there is one.
    pub open spec fn selects(self, opts: ListOptions, path: Seq<char>) -> bool {
        &&& self.entries.dom().contains(path)
        &&& has_prefix(path, list_prefix(opts))
        &&& opts.name matches Some(n) ==> key_target(self.entries[path].stored.key).2 == n@
    }
}

/// The beginning of the paths that `opts` asks for.
pub open spec fn list_prefix(opts: ListOptions) -> Seq<char> {
    let kind = "/"@ + opts.kind.plural() + "/"@;
    match opts.namespace {
        Some(ns) => kind + ns@ + "/"@,
        None => kind,
    }
}

/// Whether `items` are the resources under the paths `keys`.
pub open spec fn lists_items(
    held: MemView,
    opts: ListOptions,
    keys: Seq<Seq<char>>,
    items: Seq<KVPair<Value>>,
) -> bool {
    &&& keys.no_duplicates()
    &&& keys.len() == items.len()
    &&& forall|k: Seq<char>| #[trigger] keys.contains(k) <==> held.selects(opts, k)
    &&& forall|i: int|
        0 <= i < items.len() ==> {
            let w = held.entries[keys[i]];
            let item = #[trigger] items[i];
            &&& item.key.deep_view() == w.stored.key
            &&& item.value == w.stored.value
            &&& item.revision == Some(w.revision)
        }
}

/// A backend in memory.
#[derive(Debug)]
pub struct MemBackend {
    /// The resources, by path.
    pub store: MemStore<Stored>,
}

/// The resources of a store.
pub open spec fn mem_view(held: StoreView<Stored>) -> MemView {
    MemView {
        entries: Map::new(
            |k: Seq<char>| held.entries.dom().contains(k),
            |k: Seq<char>|
                Written {
                    stored: held.entries[k].value.deep_view(),
                    revision: held.entries[k].revision,
                },
        ),
        next: held.next,
    }
}

impl Default for MemBackend {
    fn default() -> (r: Self)
        ensures
            r.store.valid(),
            r.held() == (MemView { entries: Map::empty(), next: 1 }),
            r.store.entries.entries@.len() == 0,
            r.store.has_room(),
    {
        MemBackend::new()
    }
}

impl MemBackend {
    /// What the backend holds.
    pub open spec fn held(&self) -> MemView {
        mem_view(self.store.held())
    }

    /// A backend that holds nothing.
    pub fn new() -> (r: Self)
        ensures
            r.store.valid(),
            r.held() == (MemView { entries: Map::empty(), next: 1 }),
            r.store.entries.entries@.len() == 0,
            r.store.has_room(),
    {
        let r = MemBackend { store: MemStore::new() };
        assert(r.held() =~= (MemView { entries: Map::empty(), next: 1 }));
        r
    }

    /// Creates a resource that is not there yet.
    pub fn create(&mut self, kv: KVPair<Value>) -> (r: Result<KVPair<Value>, DsError>)
        requires
            old(self).store.valid(),
            old(self).store.has_room(),
        ensures
            final(self).store.valid(),
            ({
                let key = kv.key.deep_view();
                if old(self).held().entries.dom().contains(key.path()) {
                    r == Err::<KVPair<Value>, DsError>(DsError::ResourceAlreadyExists) && final(self).held() == old(self).held()
                } else {
                    &&& r matches Ok(p) && p.key == kv.key && p.value == kv.value && p.revision
                        == Some(old(self).held().next as u64)
                    &&& final(self).held() == old(self).held().written(key, kv.value)
                }
            }),
    {
        let ghost before = self.held();
        let path = kv.key.path();
        let stored = Stored { key: kv.key.clone(), value: kv.value.clone() };
        match self.store.create(path.as_str(), stored) {
            Ok(v) => {
                assert(self.held() =~= before.written(kv.key.deep_view(), kv.value));
                Ok(KVPair::with_revision(kv.key, kv.value, v.revision))
            },
            Err(e) => Err(DsError::from(e)),
        }
    }

    /// Replaces a resource whose revision is the given one.
    pub fn update(&mut self, kv: KVPair<Value>) -> (r: Result<KVPair<Value>, DsError>)
        requires
            old(self).store.valid(),
            old(self).store.has_room(),
        ensures
            final(self).store.valid(),
            match kv.revision {
                None => (r matches Err(DsError::Datastore(m)) && m@
                    == "update requires a revision"@) && final(self).held() == old(self).held(),
                Some(rev) => match old(self).held().refusal(kv.key.deep_view(), rev) {
                    Some(e) => r == Err::<KVPair<Value>, DsError>(e) && final(self).held() == old(self).held(),
                    None => (r matches Ok(p) && p.key == kv.key && p.value == kv.value && p.revision
                        == Some(old(self).held().next as u64)) && final(self).held() == old(self).held().written(kv.key.deep_view(), kv.value),
                },
            },
    {
        let ghost before = self.held();
        let rev = match kv.revision {
            Some(rev) => rev,
            None => return Err(DsError::Datastore("update requires a revision".to_owned())),
        };
        let path = kv.key.path();
        let stored = Stored { key: kv.key.clone(), value: kv.value.clone() };
        match self.store.update(path.as_str(), stored, rev) {
            Ok(v) => {
                assert(self.held() =~= before.written(kv.key.deep_view(), kv.value));
                Ok(KVPair::with_revision(kv.key, kv.value, v.revision))
            },
            Err(e) => Err(DsError::from(e)),
        }
    }

    /// Writes a resource, whether it is there or not. The revision of the pair is not
    /// looked at.
    pub fn apply(&mut self, kv: KVPair<Value>) -> (r: Result<KVPair<Value>, DsError>)
        requires
            old(self).store.valid(),
            old(self).store.has_room(),
        ensures
            final(self).store.valid(),
            r matches Ok(p) && p.key == kv.key && p.value == kv.value && p.revision == Some(
                old(self).held().next as u64,
            ),
            final(self).held() == old(self).held().written(kv.key.deep_view(), kv.value),
    {
        let path = kv.key.path();
        match self.store.get(path.as_str()) {
            None => self.create(kv),
            Some(current) => self.update(
                KVPair { key: kv.key, value: kv.value, revision: Some(current.revision) },
            ),
        }
    }

    /// The resource under a key.
    pub fn get(&self, key: &Key) -> (r: Result<KVPair<Value>, DsError>)
        requires
            self.store.valid(),
        ensures
            ({
                let path = key.deep_view().path();
                if self.held().entries.dom().contains(path) {
                    let w = self.held().entries[path];
                    r matches Ok(p) && p.key.deep_view() == key.deep_view() && p.value
                        == w.stored.value && p.revision == Some(w.revision)
                } else {
                    r == Err::<KVPair<Value>, DsError>(DsError::ResourceDoesNotExist)
                }
            }),
    {
        let path = key.path();
        match self.store.get(path.as_str()) {
            Some(v) => Ok(KVPair::with_revision(key.clone(), v.value.value, v.revision)),
            None => Err(DsError::ResourceDoesNotExist),
        }
    }

    /// Deletes the resource under a key; with a revision only where it is the stored one.
    pub fn delete(&mut self, key: &Key, revision: Option<Revision>) -> (r: Result<(), DsError>)
        requires
            old(self).store.valid(),
        ensures
            final(self).store.valid(),
            ({
                let held = old(self).held();
                let k = key.deep_view();
                let refused = match revision {
                    Some(rev) => held.refusal(k, rev),
                    None => if held.entries.dom().contains(k.path()) {
                        None
                    } else {
                        Some(DsError::ResourceDoesNotExist)
                    },
                };
                match refused {
                    Some(e) => r == Err::<(), DsError>(e) && final(self).held() == held,
                    None => r is Ok && final(self).held() == (MemView {
                        entries: held.entries.remove(k.path()),
                        ..held
                    }),
                }
            }),
    {
        let ghost held = self.held();
        let path = key.path();
        let rev = match revision {
            Some(rev) => rev,
            None => match self.store.get(path.as_str()) {
                Some(v) => v.revision,
                None => return Err(DsError::ResourceDoesNotExist),
            },
        };
        match self.store.delete(path.as_str(), rev) {
            Ok(_) => {
                assert(self.held() =~= (MemView {
                    entries: held.entries.remove(path@),
                    ..held
                }));
                Ok(())
            },
            Err(e) => Err(DsError::from(e)),
        }
    }

    /// The resources that `opts` asks for, in no particular order, with the revision of the
    /// last write; 0 before the first one.
    pub fn list(&self, opts: &ListOptions) -> (r: Result<KVPairList, DsError>)
        requires
            self.store.valid(),
        ensures
            r is Ok,
            exists|keys: Seq<Seq<char>>| lists_items(self.held(), *opts, keys, r->Ok_0.items@),
            r->Ok_0.revision == if self.held().next == 0 {
                0
            } else {
                self.held().next - 1
            },
    {
        let mut prefix = "/".to_owned();
        prefix.push_str(opts.kind.as_str());
        prefix.push_str("/");
        if let Some(ns) = &opts.namespace {
            prefix.push_str(ns.as_str());
            prefix.push_str("/");
        }
        let found = self.store.list(prefix.as_str());
        let ghost keys = choose|keys: Seq<Seq<char>>|
            lists_prefix(self.store.held(), prefix@, keys, found@);
        let ghost held = self.held();
        let mut items: Vec<KVPair<Value>> = Vec::new();
        let ghost mut at: Seq<int> = Seq::empty();
        for i in 0..found.len()
            invariant
                held == self.held(),
                prefix@ == list_prefix(*opts),
                lists_prefix(self.store.held(), prefix@, keys, found@),
                at.len() == items@.len(),
                forall|j: int|
                    0 <= j < at.len() ==> 0 <= #[trigger] at[j] < i && held.selects(
                        *opts,
                        keys[at[j]],
                    ) && items@[j].key.deep_view() == held.entries[keys[at[j]]].stored.key
                        && items@[j].value == held.entries[keys[at[j]]].stored.value
                        && items@[j].revision == Some(held.entries[keys[at[j]]].revision),
                forall|j: int, k: int| 0 <= j < k < at.len() ==> #[trigger] at[j] < #[trigger] at[k],
                forall|m: int|
                    0 <= m < i && held.selects(*opts, #[trigger] keys[m]) ==> at.contains(m),
        {
            let v = &found[i];
            assert(keys.contains(keys[i as int]));
            assert(held.entries[keys[i as int]].stored == v.value.deep_view());
            let wanted = match &opts.name {
                Some(n) => str_eq(key_to_target(&v.value.key).2.as_str(), n.as_str()),
                None => true,
            };
            if wanted {
                let ghost before = at;
                items.push(
                    KVPair::with_revision(v.value.key.clone(), v.value.value.clone(), v.revision),
                );
                proof {
                    at = at.push(i as int);
                    assert forall|m: int|
                        0 <= m < i + 1 && held.selects(
                            *opts,
                            #[trigger] keys[m],
                        ) implies at.contains(m) by {
                        if m < i {
                            let j = before.index_of(m);
                            assert(at[j] == m);
                        } else {
                            assert(at[before.len() as int] == m);
                        }
                    }
                }
            }
        }
        let ghost chosen = Seq::new(at.len(), |j: int| keys[at[j]]);
        proof {
            assert forall|j: int, k: int| 0 <= j < k < chosen.len() implies chosen[j] != chosen[k] by {
                assert(at[j] < at[k]);
            }
            assert forall|k: Seq<char>| #[trigger] chosen.contains(k) <==> held.selects(*opts, k) by {
                if chosen.contains(k) {
                    let j = chosen.index_of(k);
                    assert(0 <= at[j]);
                }
                if held.selects(*opts, k) {
                    assert(self.store.held().entries.dom().contains(k));
                    assert(keys.contains(k));
                    let m = keys.index_of(k);
                    assert(held.selects(*opts, keys[m]));
                    let j = at.index_of(m);
                    assert(chosen[j] == k);
                }
            }
            assert forall|i: int| 0 <= i < items@.len() implies {
                let w = held.entries[chosen[i]];
                let item = #[trigger] items@[i];
                &&& item.key.deep_view() == w.stored.key
                &&& item.value == w.stored.value
                &&& item.revision == Some(w.revision)
            } by {
                assert(0 <= at[i]);
            }
            assert(lists_items(held, *opts, chosen, items@));
        }
        let r: Result<KVPairList, DsError> = Ok(
            KVPairList { items, revision: self.store.revision() },
        );
        assert(lists_items(self.held(), *opts, chosen, r->Ok_0.items@));
        r
    }

    /// A backend in memory is ready from the beginning.
    pub fn ensure_initialized(&self) -> (r: Result<(), DsError>)
        ensures
            r == Ok::<(), DsError>(()),
    {
        Ok(())
    }

    /// A backend in memory cannot be watched.
    pub fn watch(&self, opts: &ListOptions) -> (r: Result<(), DsError>)
        ensures
            r == Err::<(), DsError>(DsError::OperationNotSupported),
    {
        Err(DsError::OperationNotSupported)
    }
}

/// What is written is what is read, at the revision of the write.
pub proof fn law_backend_reads_its_writes(held: MemView, key: KeyView, value: Value)
    ensures
        held.written(key, value).entries.dom().contains(key.path()),
        held.written(key, value).entries[key.path()].stored == (StoredView { key, value }),
        held.written(key, value).entries[key.path()].revision == held.next as u64,
        held.written(key, value).refusal(key, held.next as u64) is None,
{
}

/// A revision that a write has overtaken is refused as a conflict.
pub proof fn law_overtaken_revision_conflicts(
    held: MemView,
    key: KeyView,
    value: Value,
    stale: Revision,
)
    requires
        stale < held.next <= u64::MAX,
    ensures
        held.written(key, value).refusal(key, stale) == Some(DsError::ResourceUpdateConflict),
{
}

/// A listing is as new as the newest of what it lists, and no newer.
pub proof fn law_listing_is_as_new_as_its_newest(values: Seq<KddValue>, n: nat)
    requires
        n <= values.len(),
    ensures
        forall|i: int| 0 <= i < n ==> (#[trigger] values[i]).revision <= max_revision(values, n),
        n > 0 ==> exists|i: int|
            0 <= i < n && (#[trigger] values[i]).revision == max_revision(values, n),
        n == 0 ==> max_revision(values, n) == 0,
    decreases n,
{
    if n > 0 {
        let m = (n - 1) as nat;
        law_listing_is_as_new_as_its_newest(values, m);
        if values[m as int].revision > max_revision(values, m) || m == 0 {
            assert(values[m as int].revision == max_revision(values, n));
        } else {
            let i = choose|i: int|
                0 <= i < m && (#[trigger] values[i]).revision == max_revision(values, m);
            assert(values[i].revision == max_revision(values, n));
        }
    }
}

/// Segments without slashes in front of a slash are the same where one path begins the other.
proof fn lemma_first_segment(a: Seq<char>, b: Seq<char>, rest: Seq<char>, more: Seq<char>)
    requires
        !a.contains('/'),
        !b.contains('/'),
        has_prefix(a + "/"@ + rest, b + "/"@ + more),
    ensures
        a == b,
        has_prefix(rest, more),
{
    reveal_strlit("/");
    let path = a + "/"@ + rest;
    let p = b + "/"@ + more;
    assert(p =~= path.take(p.len() as int));
    assert forall|i: int| 0 <= i < p.len() implies p[i] == path[i] by {
        assert(path.take(p.len() as int)[i] == path[i]);
    }
    if a.len() < b.len() {
        assert(p[a.len() as int] == b[a.len() as int]);
        assert(path[a.len() as int] == '/');
        assert(b.contains(b[a.len() as int]));
    }
    if b.len() < a.len() {
        assert(path[b.len() as int] == a[b.len() as int]);
        assert(p[b.len() as int] == '/');
        assert(a.contains(a[b.len() as int]));
    }
    assert forall|i: int| 0 <= i < a.len() implies a[i] == b[i] by {
        assert(p[i] == path[i]);
    }
    assert(a =~= b);
    assert forall|i: int| 0 <= i < more.len() implies more[i] == rest[i] by {
        assert(p[a.len() + 1 + i] == path[a.len() + 1 + i]);
    }
    assert(rest.take(more.len() as int) =~= more);
}

/// A list of a kind selects the stored resources of that kind, and a list in a namespace those
/// of that kind in that namespace: never those of another kind or namespace, nor one that is
/// in no namespace. With a name it selects those of that name alone.
pub proof fn law_list_selects_kind_and_namespace(
    held: MemView,
    opts: ListOptions,
    kind: ResourceKind,
    namespace: Option<Seq<char>>,
    name: Seq<char>,
)
    requires
        !name.contains('/'),
        namespace matches Some(ns) ==> !ns.contains('/'),
        opts.namespace matches Some(ns) ==> !ns@.contains('/'),
        ({
            let key = KeyView::Resource { kind, namespace, name };
            held.entries.dom().contains(key.path()) && held.entries[key.path()].stored.key == key
        }),
    ensures
        held.selects(opts, (KeyView::Resource { kind, namespace, name }).path()) <==> {
            &&& kind == opts.kind
            &&& opts.namespace matches Some(ns) ==> namespace == Some(ns@)
            &&& opts.name matches Some(n) ==> name == n@
        },
{
    reveal_strlit("/");
    let key = KeyView::Resource { kind, namespace, name };
    let path = key.path();
    let prefix = list_prefix(opts);
    lemma_plural_marks(kind);
    lemma_plural_marks(opts.kind);
    let tail = match namespace {
        Some(ns) => ns + "/"@ + name,
        None => name,
    };
    let wanted = match opts.namespace {
        Some(ns) => ns@ + "/"@,
        None => Seq::empty(),
    };
    assert(path =~= "/"@ + (kind.plural() + "/"@ + tail));
    assert(prefix =~= "/"@ + (opts.kind.plural() + "/"@ + wanted));
    let inner = kind.plural() + "/"@ + tail;
    let inner_prefix = opts.kind.plural() + "/"@ + wanted;
    assert(has_prefix(path, prefix) <==> has_prefix(inner, inner_prefix)) by {
        if has_prefix(path, prefix) {
            assert forall|i: int| 0 <= i < inner_prefix.len() implies inner_prefix[i]
                == inner[i] by {
                assert(prefix[i + 1] == path.take(prefix.len() as int)[i + 1]);
            }
            assert(inner.take(inner_prefix.len() as int) =~= inner_prefix);
        }
        if has_prefix(inner, inner_prefix) {
            assert forall|i: int| 0 <= i < prefix.len() implies prefix[i] == path[i] by {
                if i > 0 {
                    assert(inner_prefix[i - 1] == inner.take(inner_prefix.len() as int)[i - 1]);
                }
            }
            assert(path.take(prefix.len() as int) =~= prefix);
        }
    }
    if has_prefix(inner, inner_prefix) {
        lemma_first_segment(kind.plural(), opts.kind.plural(), tail, wanted);
        law_plurals_are_distinct(kind, opts.kind);
        if let Some(want) = opts.namespace {
            match namespace {
                Some(ns) => {
                    assert(wanted =~= want@ + "/"@ + Seq::<char>::empty());
                    lemma_first_segment(ns, want@, name, Seq::empty());
                },
                None => {
                    assert(wanted[want@.len() as int] == '/');
                    assert(name.take(wanted.len() as int)[want@.len() as int] == '/');
                    assert(name[want@.len() as int] == '/');
                    assert(name.contains(name[want@.len() as int]));
                },
            }
        }
    }
    if kind == opts.kind && (opts.namespace matches Some(ns) ==> namespace == Some(ns@)) {
        let rest = match opts.namespace {
            Some(_) => name,
            None => tail,
        };
        assert(inner =~= inner_prefix + rest);
        crate::text::lemma_prefix_of_sum(inner_prefix, rest);
    }
}

/// A failure of the store keeps its meaning: each kind of it becomes its own kind, and the
/// words of a backend are handed on.
pub proof fn law_failures_keep_their_meaning(e: CasError)
    ensures
        ds_error(e) is ResourceDoesNotExist <==> e is NotFound,
        ds_error(e) is ResourceAlreadyExists <==> e is AlreadyExists,
        ds_error(e) is ResourceUpdateConflict <==> e is Conflict,
        ds_error(e) is Datastore <==> e is Backend,
        e matches CasError::Backend(s) ==> ds_error(e) == DsError::Datastore(s),
{
}

/// A resource is stored where its key says, as a resource of its kind, namespace and name; a
/// block of addresses, its affinity to a host and a handle are each stored as a resource of
/// their own kind, in no namespace.
pub proof fn law_every_key_has_its_own_kind(key: KeyView)
    ensures
        match key {
            KeyView::Resource { kind, namespace, name } => key_target(key) == (
                kind,
                namespace,
                name,
            ),
            KeyView::Block { cidr: _ } => key_target(key).0 == ResourceKind::IpamBlock && key_target(
                key,
            ).1 is None,
            KeyView::BlockAffinity { host: _, cidr: _ } => key_target(key).0
                == ResourceKind::BlockAffinity && key_target(key).1 is None,
            KeyView::IpamHandle { id: _ } => key_target(key).0 == ResourceKind::IpamHandle
                && key_target(key).1 is None,
        },
{
}

} // verus!
