//! A YAML document as plain values: what a Filefile is read into and what
//! a directory tree is written out as.
use serde_yaml::value::{Tag, TaggedValue};
use serde_yaml::Value;
use vstd::prelude::*;

verus! {

/// A YAML value.
#[derive(Debug)]
pub enum YamlValue {
    Null,
    Bool(bool),
    /// A number, as the text it was written with.
    Number(String),
    Text(String),
    List(Vec<YamlValue>),
    /// Key and value pairs in document order.
    Mapping(Vec<(YamlValue, YamlValue)>),
    /// A value under a tag such as `!git`; the tag is held with its `!`.
    Tagged(String, Box<YamlValue>),
}

/// What a [`YamlValue`] holds, as mathematical values.
pub enum YamlView {
    Null,
    Bool(bool),
    Number(Seq<char>),
    Text(Seq<char>),
    List(Seq<YamlView>),
    Mapping(Seq<(YamlView, YamlView)>),
    Tagged(Seq<char>, Box<YamlView>),
}

pub open spec fn yaml_view(v: YamlValue) -> YamlView
    decreases v,
{
    match v {
        YamlValue::Null => YamlView::Null,
        YamlValue::Bool(b) => YamlView::Bool(b),
        YamlValue::Number(n) => YamlView::Number(n@),
        YamlValue::Text(s) => YamlView::Text(s@),
        YamlValue::List(items) => YamlView::List(
            Seq::new(
                items@.len(),
                |i: int|
                    if 0 <= i < items@.len() {
                        yaml_view(items@[i])
                    } else {
                        vstd::pervasive::arbitrary()
                    },
            ),
        ),
        YamlValue::Mapping(entries) => YamlView::Mapping(
            Seq::new(
                entries@.len(),
                |i: int|
                    if 0 <= i < entries@.len() {
                        (yaml_view(entries@[i].0), yaml_view(entries@[i].1))
                    } else {
                        vstd::pervasive::arbitrary()
                    },
            ),
        ),
        YamlValue::Tagged(tag, inner) => YamlView::Tagged(tag@, Box::new(yaml_view(*inner))),
    }
}

impl View for YamlValue {
    type V = YamlView;

    open spec fn view(&self) -> YamlView {
        yaml_view(*self)
    }
}

/// The text of a value, looking through its tags, when it is text.
pub open spec fn text_of(v: YamlView) -> Option<Seq<char>>
    decreases v,
{
    match v {
        YamlView::Text(s) => Some(s),
        YamlView::Tagged(_, inner) => text_of(*inner),
        _ => None,
    }
}

impl YamlValue {
    /// The text of the value, looking through its tags, when it is text.
    pub fn as_str(&self) -> (r: Option<&str>)
        ensures
            r matches Some(s) ==> text_of(self@) == Some(s@),
            r is None ==> text_of(self@) is None,
        decreases self,
    {
        match self {
            YamlValue::Text(s) => Some(s.as_str()),
            YamlValue::Tagged(_, inner) => inner.as_str(),
            _ => None,
        }
    }

    /// Whether the value is a mapping.
    pub fn is_mapping(&self) -> (r: bool)
        ensures
            r == (self@ is Mapping),
    {
        match self {
            YamlValue::Mapping(_) => true,
            _ => false,
        }
    }
}

/// A YAML value as serde_yaml holds it; opaque here, it only passes
/// between serde_yaml and the conversions below.
#[verifier::external_type_specification]
#[verifier::external_body]
pub struct ExYamlValue(Value);

/// Whether every tag in `v` is non-empty and `v` holds no number: what the
/// writer can turn back into serde_yaml's value without asking it to read
/// a number from text, and without an empty tag, which serde_yaml refuses.
pub open spec fn printable(v: YamlView) -> bool
    decreases v,
{
    match v {
        YamlView::Number(_) => false,
        YamlView::List(items) => forall|i: int|
            0 <= i < items.len() ==> printable(#[trigger] items[i]),
        YamlView::Mapping(es) => forall|i: int|
            0 <= i < es.len() ==> printable(#[trigger] es[i].0) && printable(es[i].1),
        YamlView::Tagged(tag, inner) => tag.len() > 0 && printable(*inner),
        _ => true,
    }
}

/// The document that serde_yaml reads from `text`, or none where it
/// refuses the text.
pub uninterp spec fn parsed_yaml(text: Seq<char>) -> Option<YamlView>;

/// The text that serde_yaml writes for `v`, or none where it refuses to.
pub uninterp spec fn yaml_text(v: YamlView) -> Option<Seq<char>>;

/// `serde_yaml::from_str` into serde_yaml's `Value`, taken over node for
/// node. Claimed: the result is [`parsed_yaml`] of the text, a function of
/// the text alone; what that function is, YAML's grammar, is not stated.
#[verifier::external_body]
pub(crate) fn parse_yaml(text: &str) -> (r: Option<YamlValue>)
    ensures
        r matches Some(v) ==> parsed_yaml(text@) == Some(v@),
        r is None ==> parsed_yaml(text@) is None,
{
    match serde_yaml::from_str::<Value>(text) {
        Ok(v) => Some(from_serde(&v)),
        Err(_) => None,
    }
}

/// serde_yaml's value as a [`YamlValue`], variant for variant: a number
/// as the text serde_yaml shows it, a tag with its `!`.
#[verifier::external_body]
fn from_serde(v: &Value) -> YamlValue {
    match v {
        Value::Null => YamlValue::Null,
        Value::Bool(b) => YamlValue::Bool(*b),
        Value::Number(n) => YamlValue::Number(n.to_string()),
        Value::String(s) => YamlValue::Text(s.clone()),
        Value::Sequence(xs) => YamlValue::List(xs.iter().map(from_serde).collect()),
        Value::Mapping(m) => YamlValue::Mapping(m.iter().map(|(k, x)| (from_serde(k), from_serde(x))).collect()),
        Value::Tagged(t) => YamlValue::Tagged(t.tag.to_string(), Box::new(from_serde(&t.value))),
    }
}

/// `serde_yaml::to_string` on the value taken over into serde_yaml's
/// `Value`. Claimed: the result is [`yaml_text`] of the value, a function of
/// the value alone; the layout of the text is not stated.
#[verifier::external_body]
pub(crate) fn write_yaml(v: &YamlValue) -> (r: Option<String>)
    requires
        printable(v@),
    ensures
        r matches Some(t) ==> yaml_text(v@) == Some(t@),
        r is None ==> yaml_text(v@) is None,
{
    serde_yaml::to_string(&to_serde(v)).ok()
}

/// A [`YamlValue`] as serde_yaml's value, variant for variant; entries go
/// into serde_yaml's mapping in order. `Tag::new` panics on an empty tag,
/// and a number would have to be read back from its text: the requirement
/// rules out both.
#[verifier::external_body]
fn to_serde(v: &YamlValue) -> Value
    requires
        printable(v@),
{
    match v {
        YamlValue::Null => Value::Null,
        YamlValue::Bool(b) => Value::Bool(*b),
        YamlValue::Number(n) => Value::Number(n.parse().unwrap()),
        YamlValue::Text(s) => Value::String(s.clone()),
        YamlValue::List(xs) => Value::Sequence(xs.iter().map(to_serde).collect()),
        YamlValue::Mapping(es) => Value::Mapping(es.iter().map(|(k, x)| (to_serde(k), to_serde(x))).collect()),
        YamlValue::Tagged(t, x) => Value::Tagged(Box::new(TaggedValue { tag: Tag::new(t.as_str()), value: to_serde(x) })),
    }
}

} // verus!
