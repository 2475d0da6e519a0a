//! JSON documents built by the output formatter, and their pretty-printed
//! text, which `serde_json` writes.
use vstd::prelude::*;
use vstd::string::StringExecFns;

verus! {

/// A JSON value.
#[derive(Debug)]
pub enum Json {
    Null,
    Bool(bool),
    Num(usize),
    Str(String),
    Arr(Vec<Json>),
    Obj(Vec<JsonField>),
}

/// A member of a JSON object.
#[derive(Debug)]
pub struct JsonField {
    pub key: String,
    pub value: Json,
}

/// Model of a [`Json`] value.
#[verifier::ext_equal]
pub enum SJson {
    Null,
    Bool(bool),
    Num(nat),
    Str(Seq<char>),
    Arr(Seq<SJson>),
    Obj(Seq<(Seq<char>, SJson)>),
}

impl View for Json {
    type V = SJson;

    open spec fn view(&self) -> SJson
        decreases self,
    {
        match self {
            Json::Null => SJson::Null,
            Json::Bool(b) => SJson::Bool(*b),
            Json::Num(n) => SJson::Num(*n as nat),
            Json::Str(s) => SJson::Str(s@),
            Json::Arr(v) => SJson::Arr(json_seq_view(v@)),
            Json::Obj(v) => SJson::Obj(fields_view(v@)),
        }
    }
}

pub open spec fn json_seq_view(s: Seq<Json>) -> Seq<SJson>
    decreases s,
{
    if s.len() == 0 {
        Seq::empty()
    } else {
        json_seq_view(s.drop_last()).push(s.last().view())
    }
}

pub open spec fn fields_view(s: Seq<JsonField>) -> Seq<(Seq<char>, SJson)>
    decreases s,
{
    if s.len() == 0 {
        Seq::empty()
    } else {
        fields_view(s.drop_last()).push((s.last().key@, s.last().value.view()))
    }
}

pub proof fn lemma_json_seq_push(s: Seq<Json>, x: Json)
    ensures
        json_seq_view(s.push(x)) == json_seq_view(s).push(x@),
{
    assert(s.push(x).drop_last() =~= s);
}

pub proof fn lemma_fields_push(s: Seq<JsonField>, x: JsonField)
    ensures
        fields_view(s.push(x)) == fields_view(s).push((x.key@, x.value@)),
{
    assert(s.push(x).drop_last() =~= s);
}

/// Appends a value to a JSON array under construction.
pub fn push_json(v: &mut Vec<Json>, x: Json)
    ensures
        json_seq_view(final(v)@) == json_seq_view(old(v)@).push(x@),
{
    proof {
        lemma_json_seq_push(v@, x);
    }
    v.push(x);
}

/// Appends a member to a JSON object under construction.
pub fn push_field(v: &mut Vec<JsonField>, key: &str, x: Json)
    ensures
        fields_view(final(v)@) == fields_view(old(v)@).push((key@, x@)),
{
    let f = JsonField { key: String::from_str(key), value: x };
    proof {
        lemma_fields_push(v@, f);
    }
    v.push(f);
}

#[verifier::external_type_specification]
#[verifier::external_body]
pub struct ExJsonValue(serde_json::Value);

/// Converts a value to `serde_json::Value`, one variant for one (objects into
/// `serde_json::Map`). No contract: the result only feeds `to_pretty_text`.
#[verifier::external_body]
fn to_serde_value(v: &Json) -> serde_json::Value {
    match v {
        Json::Null => serde_json::Value::Null,
        Json::Bool(b) => serde_json::Value::Bool(*b),
        Json::Num(n) => serde_json::Value::from(*n),
        Json::Str(s) => serde_json::Value::String(s.clone()),
        Json::Arr(a) => serde_json::Value::Array(a.iter().map(to_serde_value).collect()),
        Json::Obj(o) => serde_json::Value::Object(o.iter().map(|f| (f.key.clone(), to_serde_value(&f.value))).collect()),
    }
}

/// The text that `serde_json::to_string_pretty` writes for a value: two-space
/// indentation, object members in the order of `serde_json::Map` (sorted by
/// key), strings escaped as JSON requires.
pub uninterp spec fn json_pretty(v: SJson) -> Seq<char>;

/// Calls `serde_json::to_string_pretty` on the value; its result is named
/// `json_pretty`. Serializing a `serde_json::Value` never fails (its maps have
/// string keys), so the empty default is never taken.
#[verifier::external_body]
pub(crate) fn to_pretty_text(v: &Json) -> (s: String)
    ensures
        s@ == json_pretty(v@),
{
    serde_json::to_string_pretty(&to_serde_value(v)).unwrap_or_default()
}

} // verus!
