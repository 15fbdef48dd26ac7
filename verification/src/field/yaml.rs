//! YAML documents as plain values.

use vstd::prelude::*;

use crate::number::{Number, NumberView};

verus! {

/// Contents of a [`YamlValue`].
pub enum YamlView {
    /// Null.
    Null,
    /// A boolean.
    Bool(bool),
    /// A number: its double and its text in YAML.
    Number(Option<NumberView>, Seq<char>),
    /// A string.
    String(Seq<char>),
    /// A sequence.
    Sequence(Seq<YamlView>),
    /// A mapping, in document order.
    Mapping(Seq<(YamlView, YamlView)>),
    /// A value under a tag.
    Tagged(Box<YamlView>),
}

/// A YAML value.
#[derive(Debug)]
pub enum YamlValue {
    /// Null.
    Null,
    /// A boolean.
    Bool(bool),
    /// A number: its double and its text in YAML.
    Number(Option<Number>, String),
    /// A string.
    String(String),
    /// A sequence.
    Sequence(Vec<YamlValue>),
    /// A mapping, in document order.
    Mapping(Vec<(YamlValue, YamlValue)>),
    /// A value under a tag, without the tag.
    Tagged(Box<YamlValue>),
}

/// The contents of each value.
pub open spec fn yaml_views(values: Seq<YamlValue>) -> Seq<YamlView>
    decreases values,
{
    if values.len() == 0 {
        Seq::empty()
    } else {
        yaml_views(values.drop_last()).push(values.last().contents())
    }
}

/// The contents of each key and value.
pub open spec fn yaml_entry_views(entries: Seq<(YamlValue, YamlValue)>) -> Seq<
    (YamlView, YamlView),
>
    decreases entries,
{
    if entries.len() == 0 {
        Seq::empty()
    } else {
        yaml_entry_views(entries.drop_last()).push(
            (entries.last().0.contents(), entries.last().1.contents()),
        )
    }
}

impl YamlValue {
    /// The contents of this value.
    pub open spec fn contents(self) -> YamlView
        decreases self,
    {
        match self {
            YamlValue::Null => YamlView::Null,
            YamlValue::Bool(b) => YamlView::Bool(b),
            YamlValue::Number(double, text) => YamlView::Number(
                match double {
                    Some(number) => Some(number@),
                    None => None,
                },
                text@,
            ),
            YamlValue::String(text) => YamlView::String(text@),
            YamlValue::Sequence(values) => YamlView::Sequence(yaml_views(values@)),
            YamlValue::Mapping(entries) => YamlView::Mapping(yaml_entry_views(entries@)),
            YamlValue::Tagged(value) => YamlView::Tagged(Box::new(value.contents())),
        }
    }
}

/// The value type of `yaml_serde`, which is only carried from its parser to
/// the conversion below.
#[verifier::external_type_specification]
#[verifier::external_body]
pub struct ExYamlValue(yaml_serde::Value);

/// What `yaml_serde::from_str` reads `text` as; nothing where it reports an
/// error.
pub uninterp spec fn yaml_document(text: Seq<char>) -> Option<YamlView>;

/// Turns a `yaml_serde::Value` into plain values, variant by variant. A number
/// becomes the bits and the shown text of its `as_f64`, beside its own text.
#[verifier::external_body]
fn plain_value(value: yaml_serde::Value) -> (plain: YamlValue)
{
    match value {
        yaml_serde::Value::Null => YamlValue::Null,
        yaml_serde::Value::Bool(b) => YamlValue::Bool(b),
        yaml_serde::Value::Number(n) => YamlValue::Number(
            n.as_f64().map(|d| Number::new(d.to_bits(), d.to_string())), n.to_string()),
        yaml_serde::Value::String(s) => YamlValue::String(s),
        yaml_serde::Value::Sequence(s) => YamlValue::Sequence(
            s.into_iter().map(plain_value).collect()),
        yaml_serde::Value::Mapping(m) => YamlValue::Mapping(
            m.into_iter().map(|(k, v)| (plain_value(k), plain_value(v))).collect()),
        yaml_serde::Value::Tagged(t) => YamlValue::Tagged(Box::new(plain_value(t.value))),
    }
}

/// Reads a YAML document with `yaml_serde::from_str`. Nothing is returned
/// where the text is not well-formed YAML.
#[verifier::external_body]
pub(crate) fn parse_yaml(text: &str) -> (document: Option<YamlValue>)
    ensures
        match document {
            Some(value) => yaml_document(text@) == Some(value.contents()),
            None => yaml_document(text@) is None,
        },
{
    yaml_serde::from_str::<yaml_serde::Value>(text).ok().map(plain_value)
}

/// The text of a YAML value that can stand as a field name.
pub open spec fn scalar_text(value: YamlView) -> Option<Seq<char>> {
    match value {
        YamlView::String(text) => Some(text),
        YamlView::Number(_, text) => Some(text),
        YamlView::Bool(b) => Some(
            if b {
                "true"@
            } else {
                "false"@
            },
        ),
        _ => None,
    }
}

/// The text of a string, number or boolean; nothing for any other value.
pub fn yaml_scalar_to_string(value: &YamlValue) -> (text: Option<String>)
    ensures
        match text {
            Some(found) => scalar_text(value.contents()) == Some(found@),
            None => scalar_text(value.contents()) is None,
        },
{
    match value {
        YamlValue::String(text) => Some(text.clone()),
        YamlValue::Number(_, text) => Some(text.clone()),
        YamlValue::Bool(b) => Some(
            if *b {
                "true".to_owned()
            } else {
                "false".to_owned()
            },
        ),
        _ => None,
    }
}

/// The contents of a sequence, item by item.
pub proof fn lemma_yaml_views(values: Seq<YamlValue>)
    ensures
        yaml_views(values).len() == values.len(),
        forall|i: int|
            0 <= i < values.len() ==> (#[trigger] yaml_views(values)[i]) == values[i].contents(),
    decreases values.len(),
{
    if values.len() > 0 {
        lemma_yaml_views(values.drop_last());
        assert forall|i: int| 0 <= i < values.len() implies (#[trigger] yaml_views(values)[i])
            == values[i].contents() by {
            if i < values.len() - 1 {
                assert(yaml_views(values.drop_last())[i] == values.drop_last()[i].contents());
            }
        }
    }
}

/// The contents of a mapping, entry by entry.
pub proof fn lemma_yaml_entry_views(entries: Seq<(YamlValue, YamlValue)>)
    ensures
        yaml_entry_views(entries).len() == entries.len(),
        forall|i: int|
            0 <= i < entries.len() ==> (#[trigger] yaml_entry_views(entries)[i]) == (
                entries[i].0.contents(),
                entries[i].1.contents(),
            ),
    decreases entries.len(),
{
    if entries.len() > 0 {
        lemma_yaml_entry_views(entries.drop_last());
        assert forall|i: int| 0 <= i < entries.len() implies (#[trigger] yaml_entry_views(
            entries,
        )[i]) == (entries[i].0.contents(), entries[i].1.contents()) by {
            if i < entries.len() - 1 {
                assert(yaml_entry_views(entries.drop_last())[i] == (
                    entries.drop_last()[i].0.contents(),
                    entries.drop_last()[i].1.contents(),
                ));
            }
        }
    }
}

} // verus!
