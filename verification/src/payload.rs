//! The specification of a resource as the datastore carries it: JSON, of which the library
//! reads and writes single members.

use vstd::prelude::*;

verus! {

/// A JSON value of `serde_json`.
#[verifier::external_type_specification]
#[verifier::external_body]
pub struct ExValue(serde_json::Value);

/// What a JSON value holds.
pub enum Json {
    /// Nothing.
    Null,
    /// A truth value.
    Bool(bool),
    /// A number; one that is an integer from 0 to the largest `u64` is told apart.
    Number(Option<u64>),
    /// A text.
    Text(Seq<char>),
    /// Values in a row.
    Array(Seq<Json>),
    /// Values under names.
    Object(Map<Seq<char>, Json>),
}

/// What a value of `serde_json` holds.
pub uninterp spec fn json_of(v: serde_json::Value) -> Json;

impl Json {
    /// The member with the given name, where this is an object that has it.
    pub open spec fn member(self, name: Seq<char>) -> Option<Json> {
        match self {
            Json::Object(m) => if m.dom().contains(name) {
                Some(m[name])
            } else {
                None
            },
            _ => None,
        }
    }

    /// The truth value that this is.
    pub open spec fn truth(self) -> Option<bool> {
        match self {
            Json::Bool(b) => Some(b),
            _ => None,
        }
    }

    /// The text that this is.
    pub open spec fn text(self) -> Option<Seq<char>> {
        match self {
            Json::Text(t) => Some(t),
            _ => None,
        }
    }

    /// The integer that this is, where it is a `u64`.
    pub open spec fn count(self) -> Option<u64> {
        match self {
            Json::Number(n) => n,
            _ => None,
        }
    }

    /// The member with the given name, where it is a truth value.
    pub open spec fn truth_at(self, name: Seq<char>) -> Option<bool> {
        match self.member(name) {
            Some(j) => j.truth(),
            None => None,
        }
    }

    /// The member with the given name, where it is a text.
    pub open spec fn text_at(self, name: Seq<char>) -> Option<Seq<char>> {
        match self.member(name) {
            Some(j) => j.text(),
            None => None,
        }
    }

    /// The member with the given name, where it is an integer.
    pub open spec fn count_at(self, name: Seq<char>) -> Option<u64> {
        match self.member(name) {
            Some(j) => j.count(),
            None => None,
        }
    }

    /// The object without members.
    pub open spec fn nothing() -> Json {
        Json::Object(Map::empty())
    }

    /// This object with one member more, or another value of it.
    pub open spec fn with(self, name: Seq<char>, item: Json) -> Json {
        match self {
            Json::Object(m) => Json::Object(m.insert(name, item)),
            other => other,
        }
    }
}

/// `Clone` of `serde_json::Value` is derived on plain data: the copy is the same value.
pub assume_specification[ <serde_json::Value as Clone>::clone ](v: &serde_json::Value) -> (r:
    serde_json::Value)
    ensures
        r == *v,
;

/// `serde_json::Value::as_bool` gives the truth value where the value is one.
pub assume_specification[ serde_json::Value::as_bool ](v: &serde_json::Value) -> (r: Option<bool>)
    ensures
        r == json_of(*v).truth(),
;

/// `serde_json::Value::as_str` gives the text where the value is one.
pub assume_specification[ serde_json::Value::as_str ](v: &serde_json::Value) -> (r: Option<&str>)
    ensures
        match r {
            Some(s) => json_of(*v).text() == Some(s@),
            None => json_of(*v).text() is None,
        },
;

/// `serde_json::Value::as_u64` gives the number where the value is one that `u64` holds.
pub assume_specification[ serde_json::Value::as_u64 ](v: &serde_json::Value) -> (r: Option<u64>)
    ensures
        r == json_of(*v).count(),
;

/// `serde_json::Value::is_object` says whether the value is an object.
pub assume_specification[ serde_json::Value::is_object ](v: &serde_json::Value) -> (r: bool)
    ensures
        r == (json_of(*v) is Object),
;

/// `serde_json::Value::get` with a text gives the member of that name, where the value is
/// an object that has it.
#[verifier::external_body]
pub(crate) fn member<'a>(v: &'a serde_json::Value, name: &str) -> (r: Option<&'a serde_json::Value>)
    ensures
        match r {
            Some(m) => json_of(*v).member(name@) == Some(json_of(*m)),
            None => json_of(*v).member(name@) is None,
        },
{
    v.get(name)
}

/// `serde_json::Map::new` in a `serde_json::Value::Object`: the object without members.
#[verifier::external_body]
pub(crate) fn empty_object() -> (r: serde_json::Value)
    ensures
        json_of(r) == Json::nothing(),
{
    serde_json::Value::Object(serde_json::Map::new())
}

/// `serde_json::Map::insert` on the members of an object: the member of that name is the
/// given one afterwards, and the others are as they were.
#[verifier::external_body]
pub(crate) fn insert_member(v: &mut serde_json::Value, name: &str, item: serde_json::Value)
    requires
        json_of(*old(v)) is Object,
    ensures
        json_of(*final(v)) == json_of(*old(v)).with(name@, json_of(item)),
{
    if let serde_json::Value::Object(m) = v {
        m.insert(name.to_owned(), item);
    }
}

/// `serde_json::Value::from` of a truth value.
#[verifier::external_body]
pub(crate) fn truth_value(b: bool) -> (r: serde_json::Value)
    ensures
        json_of(r) == Json::Bool(b),
{
    serde_json::Value::from(b)
}

/// `serde_json::Value::from` of a text.
#[verifier::external_body]
pub(crate) fn text_value(s: &str) -> (r: serde_json::Value)
    ensures
        json_of(r) == Json::Text(s@),
{
    serde_json::Value::from(s)
}

/// The member with the given name, where it is a truth value.
pub fn field_bool(v: &serde_json::Value, name: &str) -> (r: Option<bool>)
    ensures
        r == json_of(*v).truth_at(name@),
{
    match member(v, name) {
        Some(m) => m.as_bool(),
        None => None,
    }
}

/// The member with the given name, where it is a text.
pub fn field_text(v: &serde_json::Value, name: &str) -> (r: Option<String>)
    ensures
        r.deep_view() == json_of(*v).text_at(name@),
{
    match member(v, name) {
        Some(m) => match m.as_str() {
            Some(s) => Some(s.to_owned()),
            None => None,
        },
        None => None,
    }
}

/// The member with the given name, where it is an integer that `u64` holds.
pub fn field_u64(v: &serde_json::Value, name: &str) -> (r: Option<u64>)
    ensures
        r == json_of(*v).count_at(name@),
{
    match member(v, name) {
        Some(m) => m.as_u64(),
        None => None,
    }
}

/// The specification in the body of an object: its member `spec`, or an object without
/// members where there is none.
pub open spec fn spec_part(body: Json) -> Json {
    match body.member("spec"@) {
        Some(s) => s,
        None => Json::nothing(),
    }
}

/// The specification in the body of an object.
pub fn object_spec(body: &serde_json::Value) -> (r: serde_json::Value)
    ensures
        json_of(r) == spec_part(json_of(*body)),
{
    match member(body, "spec") {
        Some(s) => s.clone(),
        None => empty_object(),
    }
}

/// The body of an object with the given specification.
pub fn body_with_spec(spec: serde_json::Value) -> (r: serde_json::Value)
    ensures
        json_of(r) == Json::Object(map!["spec"@ => json_of(spec)]),
{
    let mut body = empty_object();
    insert_member(&mut body, "spec", spec);
    assert(Map::<Seq<char>, Json>::empty().insert("spec"@, json_of(spec)) =~= map![
        "spec"@ => json_of(spec)
    ]);
    body
}

/// The body of an object whose specification says that it is deleted. A body that is no
/// object stays as it is, and so does a specification that is none.
pub open spec fn deleted_body(body: Json) -> Json {
    if body is Object {
        body.with("spec"@, spec_part(body).with("deleted"@, Json::Bool(true)))
    } else {
        body
    }
}

/// Says in the specification of an object that it is deleted.
pub fn mark_deleted(body: &mut serde_json::Value)
    ensures
        json_of(*final(body)) == deleted_body(json_of(*old(body))),
{
    if body.is_object() {
        let mut spec = object_spec(body);
        if spec.is_object() {
            insert_member(&mut spec, "deleted", truth_value(true));
        }
        insert_member(body, "spec", spec);
    }
}

/// The patch that sets the given annotations of an object: the first `n` of them.
pub open spec fn annotations_first(pairs: Seq<(Seq<char>, Seq<char>)>, n: nat) -> Json
    decreases n,
{
    if n == 0 {
        Json::nothing()
    } else {
        annotations_first(pairs, (n - 1) as nat).with(pairs[n - 1].0, Json::Text(pairs[n - 1].1))
    }
}

/// The merge patch that sets the given annotations of an object and leaves all else.
pub fn annotation_patch(pairs: &Vec<(String, String)>) -> (r: serde_json::Value)
    ensures
        json_of(r) == Json::Object(
            map![
                "metadata"@ => Json::Object(
                    map!["annotations"@ => annotations_first(pairs.deep_view(), pairs@.len())],
                ),
            ],
        ),
{
    let mut annotations = empty_object();
    for i in 0..pairs.len()
        invariant
            json_of(annotations) is Object,
            json_of(annotations) == annotations_first(pairs.deep_view(), i as nat),
    {
        let p = &pairs[i];
        assert(pairs.deep_view()[i as int] == (p.0@, p.1@));
        insert_member(&mut annotations, p.0.as_str(), text_value(p.1.as_str()));
    }
    let mut metadata = empty_object();
    insert_member(&mut metadata, "annotations", annotations);
    let mut patch = empty_object();
    insert_member(&mut patch, "metadata", metadata);
    assert(Map::<Seq<char>, Json>::empty().insert("annotations"@, json_of(annotations)) =~= map![
        "annotations"@ => json_of(annotations)
    ]);
    assert(Map::<Seq<char>, Json>::empty().insert("metadata"@, json_of(metadata)) =~= map![
        "metadata"@ => json_of(metadata)
    ]);
    patch
}

/// What an object's body was made with is read back.
pub proof fn law_specification_is_read_back(spec: Json)
    ensures
        spec_part(Json::Object(map!["spec"@ => spec])) == spec,
{
}

/// A deleted object's specification says so, and keeps what else it says.
pub proof fn law_deletion_mark_is_all_that_changes(body: Json, name: Seq<char>)
    requires
        body is Object,
        spec_part(body) is Object,
    ensures
        spec_part(deleted_body(body)).truth_at("deleted"@) == Some(true),
        name != "deleted"@ ==> spec_part(deleted_body(body)).member(name) == spec_part(body).member(
            name,
        ),
        name != "spec"@ ==> deleted_body(body).member(name) == body.member(name),
{
}

/// An annotation has the value that was given for it last; one that was not given is not
/// there.
pub proof fn law_last_annotation_prevails(
    pairs: Seq<(Seq<char>, Seq<char>)>,
    name: Seq<char>,
    i: int,
)
    requires
        -1 <= i < pairs.len(),
        forall|j: int| i < j < pairs.len() ==> (#[trigger] pairs[j]).0 != name,
        i >= 0 ==> pairs[i].0 == name,
    ensures
        annotations_first(pairs, pairs.len()) is Object,
        i >= 0 ==> annotations_first(pairs, pairs.len()).member(name) == Some(
            Json::Text(pairs[i].1),
        ),
        i < 0 ==> annotations_first(pairs, pairs.len()).member(name) is None,
{
    lemma_annotations(pairs, name, i, pairs.len());
}

/// The same of the first `n` pairs.
proof fn lemma_annotations(pairs: Seq<(Seq<char>, Seq<char>)>, name: Seq<char>, i: int, n: nat)
    requires
        -1 <= i < n as int,
        n <= pairs.len(),
        forall|j: int| i < j < n ==> (#[trigger] pairs[j]).0 != name,
        i >= 0 ==> pairs[i].0 == name,
    ensures
        annotations_first(pairs, n) is Object,
        i >= 0 ==> annotations_first(pairs, n).member(name) == Some(Json::Text(pairs[i].1)),
        i < 0 ==> annotations_first(pairs, n).member(name) is None,
    decreases n,
{
    if n > 0 {
        let m = (n - 1) as nat;
        if i < m {
            lemma_annotations(pairs, name, i, m);
            assert(pairs[m as int].0 != name);
        } else {
            lemma_annotations_object(pairs, m);
        }
    }
}

/// The annotations are an object.
proof fn lemma_annotations_object(pairs: Seq<(Seq<char>, Seq<char>)>, n: nat)
    ensures
        annotations_first(pairs, n) is Object,
    decreases n,
{
    if n > 0 {
        lemma_annotations_object(pairs, (n - 1) as nat);
    }
}

} // verus!
