use vstd::prelude::*;

verus! {

#[verifier::external_type_specification]
#[verifier::external_body]
pub struct ExYamlError(serde_yaml::Error);

#[verifier::external_type_specification]
#[verifier::external_body]
pub struct ExJsonError(serde_json::Error);

/// Carries one decoded YAML document node opaquely.  The decoder's own
/// document type shares its name with this library's value type, so it
/// cannot be declared to the verifier directly; it rides in a hidden
/// field instead.
#[verifier::external_body]
pub struct YamlDoc {
    inner: serde_yaml::Value,
}

/// Carries one decoded JSON document node opaquely, for the same reason
/// as `YamlDoc`.
#[verifier::external_body]
pub struct JsonDoc {
    inner: serde_json::Value,
}

/// A decoded document as plain data, before the library's conversion
/// rules are applied: keys may still be arbitrary values, in mixed case,
/// and repeated; a number is carried as the text the decoder prints for
/// it.
pub enum RawDoc {
    Null,
    Text(String),
    Flag(bool),
    Num(String),
    List(Vec<RawDoc>),
    Dict(Vec<(RawDoc, RawDoc)>),
}

/// Mathematical model of a `RawDoc`.
pub enum SpecRaw {
    Null,
    Text(Seq<char>),
    Flag(bool),
    Num(Seq<char>),
    List(Seq<SpecRaw>),
    Dict(Seq<(SpecRaw, SpecRaw)>),
}

/// How many immediate children a raw node has; a dictionary entry counts
/// its key and its value separately.
pub open spec fn raw_count(d: RawDoc) -> nat {
    match d {
        RawDoc::List(items) => items@.len(),
        RawDoc::Dict(entries) => entries@.len(),
        _ => 0,
    }
}

/// The model of a raw document.
pub open spec fn rv(d: RawDoc) -> SpecRaw
    decreases d, 1int, 0int,
{
    match d {
        RawDoc::Null => SpecRaw::Null,
        RawDoc::Text(t) => SpecRaw::Text(t@),
        RawDoc::Flag(b) => SpecRaw::Flag(b),
        RawDoc::Num(t) => SpecRaw::Num(t@),
        RawDoc::List(_) => SpecRaw::List(rv_items(d, 0)),
        RawDoc::Dict(_) => SpecRaw::Dict(rv_entries(d, 0)),
    }
}

/// Models of the items of a raw list node, from index `i` on.
pub open spec fn rv_items(d: RawDoc, i: int) -> Seq<SpecRaw>
    decreases d, 0int, raw_count(d) - i,
{
    if d is List && 0 <= i < raw_count(d) {
        seq![rv(d->List_0@[i])] + rv_items(d, i + 1)
    } else {
        Seq::empty()
    }
}

/// Models of the entries of a raw dictionary node, from index `i` on.
pub open spec fn rv_entries(d: RawDoc, i: int) -> Seq<(SpecRaw, SpecRaw)>
    decreases d, 0int, raw_count(d) - i,
{
    if d is Dict && 0 <= i < raw_count(d) {
        seq![(rv(d->Dict_0@[i].0), rv(d->Dict_0@[i].1))] + rv_entries(d, i + 1)
    } else {
        Seq::empty()
    }
}

impl View for RawDoc {
    type V = SpecRaw;

    open spec fn view(&self) -> SpecRaw {
        rv(*self)
    }
}

/// Pointwise characterization of `rv_items`.
pub proof fn lemma_rv_items_index(d: RawDoc, i: int)
    requires
        d is List,
        0 <= i <= raw_count(d),
    ensures
        rv_items(d, i).len() == raw_count(d) - i,
        forall|j: int|
            0 <= j < raw_count(d) - i ==> #[trigger] rv_items(d, i)[j] == rv(
                d->List_0@[i + j],
            ),
    decreases raw_count(d) - i,
{
    if i < raw_count(d) {
        lemma_rv_items_index(d, i + 1);
    }
}

/// Pointwise characterization of `rv_entries`.
pub proof fn lemma_rv_entries_index(d: RawDoc, i: int)
    requires
        d is Dict,
        0 <= i <= raw_count(d),
    ensures
        rv_entries(d, i).len() == raw_count(d) - i,
        forall|j: int|
            0 <= j < raw_count(d) - i ==> #[trigger] rv_entries(d, i)[j] == (
                rv(d->Dict_0@[i + j].0),
                rv(d->Dict_0@[i + j].1),
            ),
    decreases raw_count(d) - i,
{
    if i < raw_count(d) {
        lemma_rv_entries_index(d, i + 1);
    }
}

/// What the YAML decoder yields for given bytes, under this library's
/// conversion-ready shape: the decoded document, or nothing when the
/// bytes do not decode.  YAML decoding depends on the bytes alone, so
/// the result can be named; `decode_yaml` applies the name.
pub uninterp spec fn yaml_raw(bs: Seq<u8>) -> Option<SpecRaw>;

/// What the JSON decoder yields for given bytes, named for the same
/// reason as `yaml_raw`; `decode_json` applies the name.
pub uninterp spec fn json_raw(bs: Seq<u8>) -> Option<SpecRaw>;

/// Relies on the variants of the YAML decoder's document type: each is
/// carried over to the matching plain form, a number as the text its
/// display prints (`.nan`, `.inf` and `-.inf` for the non-finite ones), a
/// tagged value as its inner value.  This is the converting half of
/// `decode_yaml`.
#[verifier::external_body]
fn raw_of_yaml(v: YamlDoc) -> RawDoc {
    match v.inner {
        serde_yaml::Value::Null => RawDoc::Null,
        serde_yaml::Value::Bool(b) => RawDoc::Flag(b),
        serde_yaml::Value::Number(n) => RawDoc::Num(n.to_string()),
        serde_yaml::Value::String(t) => RawDoc::Text(t),
        serde_yaml::Value::Sequence(xs) => RawDoc::List(
            xs.into_iter().map(|inner| raw_of_yaml(YamlDoc { inner })).collect(),
        ),
        serde_yaml::Value::Mapping(mp) => RawDoc::Dict(
            mp.into_iter().map(
                |(k, w)| (raw_of_yaml(YamlDoc { inner: k }), raw_of_yaml(YamlDoc { inner: w }))
            ).collect(),
        ),
        serde_yaml::Value::Tagged(t) => raw_of_yaml(YamlDoc { inner: t.value }),
    }
}

/// Relies on the variants of the JSON decoder's document type: each is
/// carried over to the matching plain form, a number as the text its
/// display prints, an object key as a plain text key.  This is the
/// converting half of `decode_json`.
#[verifier::external_body]
fn raw_of_json(v: JsonDoc) -> RawDoc {
    match v.inner {
        serde_json::Value::Null => RawDoc::Null,
        serde_json::Value::Bool(b) => RawDoc::Flag(b),
        serde_json::Value::Number(n) => RawDoc::Num(n.to_string()),
        serde_json::Value::String(t) => RawDoc::Text(t),
        serde_json::Value::Array(xs) => RawDoc::List(
            xs.into_iter().map(|inner| raw_of_json(JsonDoc { inner })).collect(),
        ),
        serde_json::Value::Object(o) => RawDoc::Dict(
            o.into_iter().map(
                |(k, w)| (RawDoc::Text(k), raw_of_json(JsonDoc { inner: w })),
            ).collect(),
        ),
    }
}

/// Relies on `serde_yaml::from_slice` with the decoder's document type as
/// the target, and on `raw_of_yaml` for the converted shape.  Decoding is
/// a function of the bytes alone: when `yaml_raw` holds a document for
/// these bytes it is returned, else the decoder's error is.
#[verifier::external_body]
pub(crate) fn decode_yaml(bytes: &[u8]) -> (r: Result<RawDoc, serde_yaml::Error>)
    ensures
        r matches Ok(raw) ==> yaml_raw(bytes@) == Some(raw@),
        r is Err ==> yaml_raw(bytes@) is None,
{
    match serde_yaml::from_slice(bytes) {
        Ok(inner) => Ok(raw_of_yaml(YamlDoc { inner })),
        Err(e) => Err(e),
    }
}

/// Relies on `serde_json::from_slice` with the decoder's document type as
/// the target, and on `raw_of_json` for the converted shape; `json_raw`
/// names its outcome as `yaml_raw` does for YAML.
#[verifier::external_body]
pub(crate) fn decode_json(bytes: &[u8]) -> (r: Result<RawDoc, serde_json::Error>)
    ensures
        r matches Ok(raw) ==> json_raw(bytes@) == Some(raw@),
        r is Err ==> json_raw(bytes@) is None,
{
    match serde_json::from_slice(bytes) {
        Ok(inner) => Ok(raw_of_json(JsonDoc { inner })),
        Err(e) => Err(e),
    }
}

} // verus!
