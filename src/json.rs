use vstd::prelude::*;

verus! {

#[verifier::external_type_specification]
#[verifier::external_body]
pub struct ExJsonValue(serde_json::Value);

/// The numbers found under `usage` in a JSON document, member by member
/// (`prompt_tokens`, `completion_tokens`, `total_tokens`); `None` when the
/// bytes are not JSON or have no `usage` member.
pub uninterp spec fn usage_numbers_of(b: Seq<u8>) -> Option<(Option<u64>, Option<u64>, Option<u64>)>;

/// Relies on `serde_json::from_slice` into a `Value`, then `Value::get` and
/// `Value::as_u64` on the `usage` member: its result depends on the bytes
/// alone.
#[verifier::external_body]
pub(crate) fn usage_numbers(b: &[u8]) -> (r: Option<(Option<u64>, Option<u64>, Option<u64>)>)
    ensures
        r == usage_numbers_of(b@),
{
    let v: serde_json::Value = serde_json::from_slice(b).ok()?;
    let u = v.get("usage")?;
    Some((
        u.get("prompt_tokens").and_then(|x| x.as_u64()),
        u.get("completion_tokens").and_then(|x| x.as_u64()),
        u.get("total_tokens").and_then(|x| x.as_u64()),
    ))
}

/// Relies on `serde_json::from_slice` into a `Value`; `None` when the bytes
/// are not JSON.
#[verifier::external_body]
pub(crate) fn parse_json(b: &[u8]) -> (r: Option<serde_json::Value>) {
    serde_json::from_slice(b).ok()
}

/// The member of a JSON object under a name.
pub uninterp spec fn member_of(v: serde_json::Value, key: Seq<char>) -> Option<serde_json::Value>;

/// The boolean a JSON value holds, if it is one.
pub uninterp spec fn bool_of(v: serde_json::Value) -> Option<bool>;

/// Whether a JSON value is an object.
pub uninterp spec fn is_object_of(v: serde_json::Value) -> bool;

/// Relies on `Value::get` with a string index: a copy of the object member
/// of that name; `None` for a missing member or a value that is not an
/// object.
#[verifier::external_body]
pub(crate) fn json_member(v: &serde_json::Value, key: &str) -> (r: Option<serde_json::Value>)
    ensures
        r == member_of(*v, key@),
        !is_object_of(*v) ==> r is None,
{
    v.get(key).cloned()
}

/// Relies on `Value::as_str`.
#[verifier::external_body]
pub(crate) fn json_as_str(v: &serde_json::Value) -> (r: Option<String>) {
    v.as_str().map(|s| s.to_string())
}

/// Relies on `Value::as_bool`.
#[verifier::external_body]
pub(crate) fn json_as_bool(v: &serde_json::Value) -> (r: Option<bool>)
    ensures
        r == bool_of(*v),
{
    v.as_bool()
}

/// Relies on `Value::is_object`.
#[verifier::external_body]
pub(crate) fn json_is_object(v: &serde_json::Value) -> (r: bool)
    ensures
        r == is_object_of(*v),
{
    v.is_object()
}

/// Relies on `Value::as_object_mut` and `serde_json::Map::insert`: in an
/// object the member now holds `val` and the others are kept; any other
/// value is left alone.
#[verifier::external_body]
pub(crate) fn json_object_insert(v: &mut serde_json::Value, key: &str, val: serde_json::Value)
    ensures
        is_object_of(*final(v)) == is_object_of(*old(v)),
        is_object_of(*old(v)) ==> member_of(*final(v), key@) == Some(val),
        is_object_of(*old(v)) ==> forall|k: Seq<char>| k != key@ ==> #[trigger] member_of(*final(v), k) == member_of(*old(v), k),
        !is_object_of(*old(v)) ==> *final(v) == *old(v),
{
    if let Some(obj) = v.as_object_mut() {
        obj.insert(key.to_string(), val);
    }
}

/// Relies on `serde_json::Map::new` wrapped as `Value::Object`: an object
/// without members.
#[verifier::external_body]
pub(crate) fn json_empty_object() -> (r: serde_json::Value)
    ensures
        is_object_of(r),
        forall|k: Seq<char>| #[trigger] member_of(r, k) is None,
{
    serde_json::Value::Object(serde_json::Map::new())
}

/// Relies on `Value::Bool`.
#[verifier::external_body]
pub(crate) fn json_bool(b: bool) -> (r: serde_json::Value)
    ensures
        bool_of(r) == Some(b),
{
    serde_json::Value::Bool(b)
}

/// The member's text when it is a string.
pub fn json_str_member(v: &serde_json::Value, key: &str) -> (r: Option<String>) {
    match json_member(v, key) {
        Some(m) => json_as_str(&m),
        None => None,
    }
}

/// The member's value when it is a boolean.
pub fn json_bool_member(v: &serde_json::Value, key: &str) -> (r: Option<bool>)
    ensures
        r == match member_of(*v, key@) {
            Some(m) => bool_of(m),
            None => None,
        },
{
    match json_member(v, key) {
        Some(m) => json_as_bool(&m),
        None => None,
    }
}

/// How the `stream_options` member of a request stands.
pub open spec fn options_of(v: serde_json::Value) -> OptionsShape {
    match member_of(v, "stream_options"@) {
        None => OptionsShape::Absent,
        Some(o) => if !is_object_of(o) {
            OptionsShape::NotObject
        } else {
            match member_of(o, "include_usage"@) {
                None => OptionsShape::Object(None),
                Some(iu) => OptionsShape::Object(Some(bool_of(iu))),
            }
        },
    }
}

/// The shape of a request body.
pub open spec fn shape_of(v: serde_json::Value) -> StreamShape {
    StreamShape {
        is_object: is_object_of(v),
        stream: match member_of(v, "stream"@) {
            Some(m) => bool_of(m) == Some(true),
            None => false,
        },
        options: options_of(v),
    }
}

pub fn json_stream_options(v: &serde_json::Value) -> (r: OptionsShape)
    ensures
        r == options_of(*v),
{
    match json_member(v, "stream_options") {
        None => OptionsShape::Absent,
        Some(o) => if !json_is_object(&o) {
            OptionsShape::NotObject
        } else {
            match json_member(&o, "include_usage") {
                None => OptionsShape::Object(None),
                Some(iu) => OptionsShape::Object(Some(json_as_bool(&iu))),
            }
        },
    }
}

/// Relies on `serde_json::to_vec`; `None` if serialisation fails.
#[verifier::external_body]
pub(crate) fn json_to_bytes(v: &serde_json::Value) -> (r: Option<Vec<u8>>) {
    serde_json::to_vec(v).ok()
}

/// How a request's `stream_options` member stands.
#[derive(Clone, Copy, Debug, PartialEq, Eq)]
pub enum OptionsShape {
    Absent,
    NotObject,
    /// An object; its `include_usage` member is absent (`None`), not a
    /// boolean (`Some(None)`) or a boolean.
    Object(Option<Option<bool>>),
}

/// The parts of a request body that the usage hint looks at.
#[derive(Clone, Copy, Debug, PartialEq, Eq)]
pub struct StreamShape {
    pub is_object: bool,
    pub stream: bool,
    pub options: OptionsShape,
}

/// Whether the hint changes a request of this shape: an object that asks
/// for streaming, whose `stream_options` is absent or an object without
/// `include_usage: true`.
pub open spec fn needs_usage_hint(s: StreamShape) -> bool {
    s.is_object && s.stream && match s.options {
        OptionsShape::Absent => true,
        OptionsShape::NotObject => false,
        OptionsShape::Object(iu) => iu != Some(Some(true)),
    }
}

/// The shape once the hint is applied.
pub open spec fn with_usage_hint(s: StreamShape) -> StreamShape {
    if needs_usage_hint(s) {
        StreamShape { options: OptionsShape::Object(Some(Some(true))), ..s }
    } else {
        s
    }
}

/// Decides whether the hint must be written into a request of this shape.
pub fn plan_usage_hint(s: StreamShape) -> (r: bool)
    ensures
        r == needs_usage_hint(s),
{
    s.is_object && s.stream && match s.options {
        OptionsShape::Absent => true,
        OptionsShape::NotObject => false,
        OptionsShape::Object(iu) => match iu {
            Some(Some(true)) => false,
            _ => true,
        },
    }
}

/// Applying the hint twice changes nothing the second time.
pub proof fn lemma_usage_hint_idempotent(s: StreamShape)
    ensures
        !needs_usage_hint(with_usage_hint(s)),
        with_usage_hint(with_usage_hint(s)) == with_usage_hint(s),
{
}

/// Reads the shape of a request body.
pub fn stream_shape(v: &serde_json::Value) -> (r: StreamShape)
    ensures
        r == shape_of(*v),
{
    let is_object = json_is_object(v);
    let stream = match json_bool_member(v, "stream") {
        Some(b) => b,
        None => false,
    };
    StreamShape { is_object, stream, options: json_stream_options(v) }
}

/// Makes sure a streaming request asks for usage in its last event: sets
/// `stream_options.include_usage` to `true`, creating `stream_options` when
/// missing. `true` when the body was changed and must be serialised again.
pub fn ensure_stream_usage(v: &mut serde_json::Value) -> (r: bool)
    ensures
        r == needs_usage_hint(shape_of(*old(v))),
        !needs_usage_hint(shape_of(*final(v))),
        !r ==> *final(v) == *old(v),
        r ==> shape_of(*final(v)) == with_usage_hint(shape_of(*old(v))),
{
    let shape = stream_shape(v);
    if !plan_usage_hint(shape) {
        return false;
    }
    let mut opts = match json_member(v, "stream_options") {
        Some(o) => o,
        None => json_empty_object(),
    };
    let ghost o0 = opts;
    json_object_insert(&mut opts, "include_usage", json_bool(true));
    let ghost before = *v;
    json_object_insert(v, "stream_options", opts);
    proof {
        reveal_strlit("stream");
        reveal_strlit("stream_options");
        reveal_strlit("include_usage");
        assert("stream"@.len() == 6);
        assert("stream_options"@.len() == 14);
        assert("stream"@ != "stream_options"@);
        assert(is_object_of(o0));
        assert(member_of(*v, "stream"@) == member_of(before, "stream"@));
    }
    true
}

/// The body of a request as JSON, when it is read as JSON: non-empty, with
/// no content type or a JSON one, and well formed.
pub fn parse_request_json(content_type: &str, body: &[u8]) -> (r: Option<serde_json::Value>)
    ensures
        !(body@.len() > 0 && (content_type@.len() == 0 || crate::text::is_prefix("application/json"@, content_type@))) ==> r is None,
{
    if crate::proxy::body_is_json(body.len(), content_type) {
        parse_json(body)
    } else {
        None
    }
}

/// Writes the usage hint into a streaming request; the re-serialised body
/// when it changed, `None` when it was already there or serialisation failed.
pub fn inject_usage_hint(v: &mut serde_json::Value) -> (r: Option<Vec<u8>>)
    ensures
        r is Some ==> needs_usage_hint(shape_of(*old(v))),
        !needs_usage_hint(shape_of(*final(v))),
        !needs_usage_hint(shape_of(*old(v))) ==> *final(v) == *old(v),
{
    if ensure_stream_usage(v) {
        json_to_bytes(v)
    } else {
        None
    }
}

} // verus!
