//! The Kubernetes datastore: what its answers mean and what to ask next.

use crate::cas::{CasError, Revision};
use crate::digest::{base32, base32_of, sha3_256, sha3_256_of};
use crate::ordmap::Labels;
use crate::payload::{empty_object, insert_member, json_of, member, object_spec, spec_part, text_value, Json};
use crate::syncer::{parse_revision, revision_of};
use crate::text::{decimal, unsign, unsigned_value};
use serde_json::Value;
use vstd::prelude::*;
use vstd::utf8::encode_utf8;

verus! {

/// What is read of an object of the Kubernetes API.
pub struct ObjectFacts {
    /// Its name.
    pub name: Option<String>,
    /// Its namespace.
    pub namespace: Option<String>,
    /// Its version token.
    pub resource_version: Option<String>,
    /// Its labels.
    pub labels: Option<Labels>,
    /// Its specification; an empty object where it has none.
    pub spec: Value,
}

impl ObjectFacts {
    /// Reads an object with the given metadata and body.
    pub fn new(
        name: Option<String>,
        namespace: Option<String>,
        resource_version: Option<String>,
        labels: Option<Labels>,
        body: &Value,
    ) -> (r: Self)
        ensures
            r.name == name,
            r.namespace == namespace,
            r.resource_version == resource_version,
            r.labels == labels,
            json_of(r.spec) == spec_part(json_of(*body)),
    {
        ObjectFacts { name, namespace, resource_version, labels, spec: object_spec(body) }
    }
}

/// A value read from the datastore.
#[derive(Debug, PartialEq, Eq)]
pub struct KddValue {
    /// The name of the resource.
    pub name: String,
    /// The namespace of the resource.
    pub namespace: Option<String>,
    /// The specification.
    pub spec: Value,
    /// The revision that the version token denotes.
    pub revision: Revision,
    /// The version token itself.
    pub raw_revision: String,
}

/// The value that an object is; one without a name is none. A version token that is no
/// number counts as revision 0.
pub fn to_value(obj: ObjectFacts) -> (r: Result<KddValue, CasError>)
    ensures
        match obj.name {
            None => r matches Err(CasError::Backend(m)) && m@ == "object has no name"@,
            Some(n) => r matches Ok(v) && v.name == n && v.namespace == obj.namespace && v.spec
                == obj.spec && v.revision == revision_of(obj.resource_version.deep_view())
                && v.raw_revision@ == (match obj.resource_version {
                Some(t) => t@,
                None => Seq::empty(),
            }),
        },
{
    let revision = parse_revision(&obj.resource_version);
    let raw_revision = match obj.resource_version {
        Some(t) => t,
        None => String::new(),
    };
    match obj.name {
        None => Err(CasError::Backend("object has no name".to_owned())),
        Some(name) => Ok(
            KddValue { name, namespace: obj.namespace, spec: obj.spec, revision, raw_revision },
        ),
    }
}

/// What was asked of the API.
#[derive(Debug, Clone, Copy, PartialEq, Eq, Structural)]
pub enum Op {
    /// To create an object.
    Create,
    /// To read an object.
    Get,
    /// To replace or patch an object.
    Update,
    /// To delete an object.
    Delete,
    /// To list objects.
    List,
}

/// Why the API did not do what was asked.
#[derive(Debug)]
pub enum ApiFailure {
    /// It answered with a status code and a message.
    Api { code: u16, message: String },
    /// The request failed otherwise.
    Other(String),
}

/// What a failure means: an object is missing, or it is there already, or it was changed
/// meanwhile; everything else is a failure of the datastore.
pub open spec fn meaning(e: ApiFailure, op: Op) -> CasError {
    match e {
        ApiFailure::Api { code, message } => if code == 404 {
            CasError::NotFound
        } else if code == 409 && op == Op::Create {
            CasError::AlreadyExists
        } else if code == 409 {
            CasError::Conflict { expected: 0, actual: None }
        } else {
            CasError::Backend(message)
        },
        ApiFailure::Other(message) => CasError::Backend(message),
    }
}

/// What a failure means.
pub fn map_err(e: ApiFailure, op: Op) -> (r: CasError)
    ensures
        r == meaning(e, op),
{
    match e {
        ApiFailure::Api { code, message } => {
            if code == 404 {
                CasError::NotFound
            } else if code == 409 {
                if op == Op::Create {
                    CasError::AlreadyExists
                } else {
                    CasError::Conflict { expected: 0, actual: None }
                }
            } else {
                CasError::Backend(message)
            }
        },
        ApiFailure::Other(message) => CasError::Backend(message),
    }
}

/// What a merge patch becomes that is to apply to one version of an object only: the
/// version stands in its metadata.
pub open spec fn guarded(patch: Json, version: Seq<char>) -> Json {
    let metadata = match patch.member("metadata"@) {
        Some(m) => m,
        None => Json::nothing(),
    };
    patch.with("metadata"@, metadata.with("resourceVersion"@, Json::Text(version)))
}

/// Ties a merge patch to a version of the object: `None` stands for any version. A patch
/// that is no object, or whose metadata are none, cannot be tied.
pub fn guard_patch(patch: Value, version: Option<String>) -> (r: Result<Value, CasError>)
    ensures
        match version {
            None => r == Ok::<Value, CasError>(patch),
            Some(token) => if !(json_of(patch) is Object) {
                r matches Err(CasError::Backend(e)) && e@ == "patch must be a JSON object"@
            } else if json_of(patch).member("metadata"@) matches Some(m) && !(m is Object) {
                r matches Err(CasError::Backend(e)) && e@ == "metadata must be an object"@
            } else {
                r matches Ok(p) && json_of(p) == guarded(json_of(patch), token@)
            },
        },
{
    let token = match version {
        None => {
            return Ok(patch);
        },
        Some(token) => token,
    };
    let mut patch = patch;
    if !patch.is_object() {
        return Err(CasError::Backend("patch must be a JSON object".to_owned()));
    }
    let mut metadata = match member(&patch, "metadata") {
        Some(m) => m.clone(),
        None => empty_object(),
    };
    if !metadata.is_object() {
        return Err(CasError::Backend("metadata must be an object".to_owned()));
    }
    insert_member(&mut metadata, "resourceVersion", text_value(token.as_str()));
    insert_member(&mut patch, "metadata", metadata);
    Ok(patch)
}

/// The label that holds the hash of a host's name.
pub const LABEL_HOSTNAME_HASH: &'static str = "projectcalico.org/hostname-hash";

/// The hash of a host's name, as a label value: the base32 text of its SHA3-256 digest.
pub open spec fn hostname_hash(hostname: Seq<char>) -> Seq<char> {
    base32_of(sha3_256_of(encode_utf8(hostname)))
}

/// The label value that belongs to the digest of a host's name.
pub fn hash_label_for_digest(digest: &[u8]) -> (r: String)
    requires
        digest@.len() == 32,
    ensures
        r@ == base32_of(digest@),
        r@.len() == 52,
{
    base32(digest)
}

/// The hash of a host's name, as a label value.
pub fn hash_hostname_for_label(hostname: &str) -> (r: String)
    ensures
        r@ == hostname_hash(hostname@),
        r@.len() == 52,
{
    let digest = sha3_256(hostname.as_bytes());
    hash_label_for_digest(digest.as_slice())
}

/// The label by which the resources of a host are found.
pub fn hostname_hash_label(host: &str) -> (r: (String, String))
    ensures
        r.0@ == LABEL_HOSTNAME_HASH@,
        r.1@ == hostname_hash(host@),
{
    (LABEL_HOSTNAME_HASH.to_owned(), hash_hostname_for_label(host))
}

/// The selector of the resources of a host.
pub fn host_selector(host: &str) -> (r: String)
    ensures
        r@ == LABEL_HOSTNAME_HASH@ + "="@ + hostname_hash(host@),
{
    let (label, value) = hostname_hash_label(host);
    let mut s = label;
    s.push_str("=");
    s.push_str(value.as_str());
    s
}

/// How far a deletion in two steps has come.
#[derive(Debug)]
pub enum DeletePhase {
    /// The object is being read.
    Reading,
    /// The object is being marked as deleted.
    Marking { uid: Option<String> },
    /// The marked object is being removed.
    Removing,
}

/// What came of the last request.
#[derive(Debug)]
pub enum DeleteEvent {
    /// There is no such object.
    Missing,
    /// The object was read.
    Found { uid: Option<String>, resource_version: Option<String> },
    /// The mark was set.
    Marked { resource_version: Option<String> },
    /// The object was removed.
    Removed,
    /// The request failed.
    Failed(ApiFailure),
}

/// What to do next.
#[derive(Debug)]
pub enum DeleteAction {
    /// Mark the object as deleted, if its version is the given one.
    Mark { resource_version: String },
    /// Remove the object, if its version and its identity are the given ones.
    Remove { resource_version: String, uid: Option<String> },
    /// Nothing; this is the outcome.
    Finish(Result<(), CasError>),
}

/// The token, or an empty one.
pub open spec fn token_or_empty(t: Option<String>) -> Seq<char> {
    match t {
        Some(s) => s@,
        None => Seq::empty(),
    }
}

/// Whether a failure says that there is no such object.
pub open spec fn is_missing(e: ApiFailure) -> bool {
    e matches ApiFailure::Api { code, .. } && code == 404
}

/// The next step of a deletion in two steps. The object is marked first, on condition of
/// the version that was read: once that succeeds, the deletion has happened. Then it is
/// removed, on condition of the version that marking gave it and of its identity. An
/// object that is missing at any point has been deleted already.
pub fn soft_then_hard_delete(phase: DeletePhase, event: DeleteEvent) -> (r: (
    DeletePhase,
    DeleteAction,
))
    ensures
        match (phase, event) {
            (DeletePhase::Reading, DeleteEvent::Missing) => r.1 == DeleteAction::Finish(Ok(())),
            (DeletePhase::Reading, DeleteEvent::Found { uid, resource_version }) => r.0
                == (DeletePhase::Marking { uid }) && (r.1 matches DeleteAction::Mark {
                resource_version: t,
            } && t@ == token_or_empty(resource_version)),
            (DeletePhase::Reading, DeleteEvent::Failed(e)) => r.1 == DeleteAction::Finish(
                Err(meaning(e, Op::Get)),
            ),
            (DeletePhase::Marking { uid: id }, DeleteEvent::Marked { resource_version }) => r.0
                == DeletePhase::Removing && (r.1 matches DeleteAction::Remove {
                resource_version: t,
                uid,
            } && t@ == token_or_empty(resource_version) && uid == id),
            (DeletePhase::Marking { uid: _ }, DeleteEvent::Missing) => r.1
                == DeleteAction::Finish(Ok(())),
            (DeletePhase::Marking { uid: _ }, DeleteEvent::Failed(e)) => r.1
                == DeleteAction::Finish(if is_missing(e) {
                Ok(())
            } else {
                Err(meaning(e, Op::Update))
            }),
            (DeletePhase::Removing, DeleteEvent::Removed) => r.1 == DeleteAction::Finish(Ok(())),
            (DeletePhase::Removing, DeleteEvent::Missing) => r.1 == DeleteAction::Finish(Ok(())),
            (DeletePhase::Removing, DeleteEvent::Failed(e)) => r.1 == DeleteAction::Finish(
                if is_missing(e) {
                    Ok(())
                } else {
                    Err(meaning(e, Op::Delete))
                },
            ),
            _ => r.1 matches DeleteAction::Finish(Err(CasError::Backend(m))) && m@
                == "unexpected answer during deletion"@,
        },
        keeps_order(phase, event, r.0, r.1),
{
    match (phase, event) {
        (DeletePhase::Reading, DeleteEvent::Missing) => (
            DeletePhase::Reading,
            DeleteAction::Finish(Ok(())),
        ),
        (DeletePhase::Reading, DeleteEvent::Found { uid, resource_version }) => {
            let token = match resource_version {
                Some(t) => t,
                None => String::new(),
            };
            (DeletePhase::Marking { uid }, DeleteAction::Mark { resource_version: token })
        },
        (DeletePhase::Reading, DeleteEvent::Failed(e)) => (
            DeletePhase::Reading,
            DeleteAction::Finish(Err(map_err(e, Op::Get))),
        ),
        (DeletePhase::Marking { uid }, DeleteEvent::Marked { resource_version }) => {
            let token = match resource_version {
                Some(t) => t,
                None => String::new(),
            };
            (DeletePhase::Removing, DeleteAction::Remove { resource_version: token, uid })
        },
        (DeletePhase::Marking { uid }, DeleteEvent::Missing) => (
            DeletePhase::Marking { uid },
            DeleteAction::Finish(Ok(())),
        ),
        (DeletePhase::Marking { uid }, DeleteEvent::Failed(e)) => {
            let outcome = finish(e, Op::Update);
            (DeletePhase::Marking { uid }, DeleteAction::Finish(outcome))
        },
        (DeletePhase::Removing, DeleteEvent::Removed) => (
            DeletePhase::Removing,
            DeleteAction::Finish(Ok(())),
        ),
        (DeletePhase::Removing, DeleteEvent::Missing) => (
            DeletePhase::Removing,
            DeleteAction::Finish(Ok(())),
        ),
        (DeletePhase::Removing, DeleteEvent::Failed(e)) => {
            let outcome = finish(e, Op::Delete);
            (DeletePhase::Removing, DeleteAction::Finish(outcome))
        },
        (phase, _) => (
            phase,
            DeleteAction::Finish(
                Err(CasError::Backend("unexpected answer during deletion".to_owned())),
            ),
        ),
    }
}

/// The outcome of a step that failed: a missing object has been deleted already.
fn finish(e: ApiFailure, op: Op) -> (r: Result<(), CasError>)
    ensures
        r == (if is_missing(e) {
            Ok(())
        } else {
            Err(meaning(e, op))
        }),
{
    if let ApiFailure::Api { code, .. } = &e {
        if *code == 404 {
            return Ok(());
        }
    }
    Err(map_err(e, op))
}

/// The decimal text of a revision is a version token that denotes it.
pub proof fn law_revision_token_round_trips(revision: Revision)
    ensures
        revision_of(Some(decimal(revision as nat))) == revision,
{
    let s = decimal(revision as nat);
    crate::text::lemma_decimal_reads_back(revision as nat);
    assert(crate::text::is_digit(s[0]));
    assert(unsign(s) == s);
    assert(unsigned_value(s, u64::MAX as nat) == Some(revision as nat));
}

/// A guarded patch demands the version that was read, and is otherwise the patch: every other
/// member of it, and of its metadata, stays.
pub proof fn law_guard_adds_the_version_alone(patch: Json, version: Seq<char>, name: Seq<char>)
    requires
        patch is Object,
        patch.member("metadata"@) matches Some(m) ==> m is Object,
    ensures
        ({
            let g = guarded(patch, version);
            let before = match patch.member("metadata"@) {
                Some(m) => m.member(name),
                None => None,
            };
            &&& g.member("metadata"@) matches Some(m)
            &&& m.member("resourceVersion"@) == Some(Json::Text(version))
            &&& name != "resourceVersion"@ ==> m.member(name) == before
            &&& name != "metadata"@ ==> g.member(name) == patch.member(name)
        }),
{
}

/// What is missing is missing whatever was asked for. A clash means that the object exists
/// where it was to be created and that it was changed where it was to be written. Everything
/// else is handed on in its own words.
pub proof fn law_failures_depend_on_the_operation(e: ApiFailure, op: Op)
    ensures
        match e {
            ApiFailure::Other(m) => meaning(e, op) == CasError::Backend(m),
            ApiFailure::Api { code, message } => {
                &&& meaning(e, op) == CasError::NotFound <==> code == 404
                &&& meaning(e, op) == CasError::AlreadyExists <==> code == 409 && op is Create
                &&& meaning(e, op) is Conflict <==> code == 409 && !(op is Create)
                &&& meaning(e, op) is Backend <==> code != 404 && code != 409
                &&& meaning(e, op) matches CasError::Backend(m) ==> m == message
            },
        },
{
}

/// Whether a step of a deletion keeps to the order: an object is marked on what was read of
/// it, and removed on what marking gave back, under the identity that was read; the deletion
/// is done where the object is gone, and fails otherwise.
pub open spec fn keeps_order(
    phase: DeletePhase,
    event: DeleteEvent,
    next: DeletePhase,
    action: DeleteAction,
) -> bool {
    let gone = match event {
        DeleteEvent::Missing => true,
        DeleteEvent::Removed => phase is Removing,
        DeleteEvent::Failed(e) => !(phase is Reading) && is_missing(e),
        _ => false,
    };
    match action {
        DeleteAction::Mark { resource_version: t } => {
            &&& phase is Reading
            &&& event matches DeleteEvent::Found { uid, resource_version }
            &&& t@ == token_or_empty(resource_version)
            &&& next == (DeletePhase::Marking { uid })
        },
        DeleteAction::Remove { resource_version: t, uid } => {
            &&& phase == (DeletePhase::Marking { uid })
            &&& event matches DeleteEvent::Marked { resource_version }
            &&& t@ == token_or_empty(resource_version)
            &&& next is Removing
        },
        DeleteAction::Finish(outcome) => {
            &&& outcome is Ok <==> gone
            &&& !(phase is Reading && event is Found)
            &&& !(phase is Marking && event is Marked)
        },
    }
}

/// What is removed is the object that was read, by its identity, and only after it was marked
/// on the version that was read; it is removed on the version that marking gave it. After that
/// the deletion ends, and ends well exactly where the object is gone.
pub proof fn law_only_what_was_read_and_marked_is_removed(
    first: DeleteEvent,
    marking: DeletePhase,
    mark: DeleteAction,
    second: DeleteEvent,
    removing: DeletePhase,
    remove: DeleteAction,
    third: DeleteEvent,
    end: DeletePhase,
    finish: DeleteAction,
)
    requires
        keeps_order(DeletePhase::Reading, first, marking, mark),
        !(mark is Finish),
        keeps_order(marking, second, removing, remove),
        !(remove is Finish),
        keeps_order(removing, third, end, finish),
    ensures
        first matches DeleteEvent::Found { uid, resource_version } && (mark matches DeleteAction::Mark {
            resource_version: t,
        } && t@ == token_or_empty(resource_version)) && (remove matches DeleteAction::Remove {
            resource_version: _,
            uid: u,
        } && u == uid),
        second matches DeleteEvent::Marked { resource_version } && (remove
            matches DeleteAction::Remove { resource_version: t, uid: _ } && t@ == token_or_empty(
            resource_version,
        )),
        finish matches DeleteAction::Finish(outcome) && (outcome is Ok <==> third is Missing || third
            is Removed || (third matches DeleteEvent::Failed(e) && is_missing(e))),
{
}

} // verus!
