//! Metadata extracted from frontmatter and inline fields.

use vstd::prelude::*;
use vstd::string::*;

use super::value::{value_of_yaml, FieldValue, ValueView};
use crate::field::key::FieldKey;
use crate::field::yaml::{
    lemma_yaml_entry_views, parse_yaml, scalar_text, yaml_document, yaml_entry_views,
    yaml_scalar_to_string, YamlValue, YamlView,
};
use crate::text::{is_blank, trimmed};

verus! {

/// How an inline field was written.
#[derive(Copy, Clone, Debug, PartialEq, Eq, Structural)]
pub enum InlineFieldForm {
    /// `Key:: Value`, filling a line.
    Body,
    /// `[Key:: Value]`, with the key visible in rendered text.
    VisibleKey,
    /// `(Key:: Value)`, with the key hidden in rendered text.
    HiddenKey,
}

/// Where a field was found.
#[derive(Copy, Clone, Debug, PartialEq, Eq, Structural)]
pub enum FieldSource {
    /// YAML frontmatter.
    Frontmatter,
    /// Inline field syntax in body text.
    Body(InlineFieldForm),
}

/// Contents of a [`MetadataField`].
pub struct FieldView {
    /// The key as written.
    pub key: Seq<char>,
    /// The value.
    pub value: ValueView,
    /// Where the field was found.
    pub source: FieldSource,
}

/// A key with its value.
#[derive(Debug)]
pub struct MetadataField {
    key: FieldKey,
    value: FieldValue,
    source: FieldSource,
}

impl View for MetadataField {
    type V = FieldView;

    closed spec fn view(&self) -> FieldView {
        FieldView {
            key: self.key.spec_name(),
            value: self.value.contents(),
            source: self.source,
        }
    }
}

impl MetadataField {
    /// Creates a field.
    pub fn new(key: &str, value: FieldValue, source: FieldSource) -> (field: Self)
        ensures
            field@ == (FieldView { key: key@, value: value.contents(), source }),
    {
        MetadataField { key: FieldKey::from_text(key), value, source }
    }

    /// The key.
    pub fn key(&self) -> (key: &FieldKey)
        ensures
            key.spec_name() == self@.key,
    {
        &self.key
    }

    /// The value.
    pub fn value(&self) -> (value: &FieldValue)
        ensures
            value.contents() == self@.value,
    {
        &self.value
    }

    /// Where the field was found.
    pub fn source(&self) -> (source: FieldSource)
        ensures
            source == self@.source,
    {
        self.source
    }

    /// How the field was written, if it came from body text.
    pub fn form(&self) -> (form: Option<InlineFieldForm>)
        ensures
            form == match self@.source {
                FieldSource::Body(form) => Some(form),
                FieldSource::Frontmatter => None,
            },
    {
        match self.source {
            FieldSource::Body(form) => Some(form),
            FieldSource::Frontmatter => None,
        }
    }
}

/// The contents of each field.
pub open spec fn field_views(fields: Seq<MetadataField>) -> Seq<FieldView> {
    Seq::new(fields.len(), |i: int| fields[i]@)
}

/// A YAML frontmatter block as written.
#[derive(Debug)]
pub struct RawFrontmatter {
    text: String,
}

impl View for RawFrontmatter {
    type V = Seq<char>;

    closed spec fn view(&self) -> Seq<char> {
        self.text@
    }
}

impl RawFrontmatter {
    /// Keeps the text between the delimiters.
    pub fn new(raw: &str) -> (frontmatter: Self)
        ensures
            frontmatter@ == raw@,
    {
        RawFrontmatter { text: raw.to_owned() }
    }

    /// The text between the delimiters.
    pub fn as_str(&self) -> (raw: &str)
        ensures
            raw@ == self@,
    {
        self.text.as_str()
    }

    /// Whether the block holds nothing but whitespace.
    pub fn is_empty(&self) -> (empty: bool)
        ensures
            empty == (trimmed(self@).len() == 0),
    {
        is_blank(self.text.as_str())
    }
}

/// Fields parsed from a frontmatter block.
#[derive(Debug)]
pub struct Frontmatter {
    fields: Vec<MetadataField>,
}

impl View for Frontmatter {
    type V = Seq<FieldView>;

    closed spec fn view(&self) -> Seq<FieldView> {
        field_views(self.fields@)
    }
}

/// The fields of a YAML mapping, in document order. Entries whose key is no
/// scalar are left out.
pub open spec fn fields_of_mapping(entries: Seq<(YamlView, YamlView)>) -> Seq<FieldView>
    decreases entries.len(),
{
    if entries.len() == 0 {
        Seq::empty()
    } else {
        let before = fields_of_mapping(entries.drop_last());
        match scalar_text(entries.last().0) {
            Some(key) => before.push(
                FieldView {
                    key,
                    value: value_of_yaml(entries.last().1),
                    source: FieldSource::Frontmatter,
                },
            ),
            None => before,
        }
    }
}

/// The fields of a parsed frontmatter block: none where it could not be parsed
/// or is no mapping.
pub open spec fn fields_of_document(document: Option<YamlView>) -> Seq<FieldView> {
    match document {
        Some(YamlView::Mapping(entries)) => fields_of_mapping(entries),
        _ => Seq::empty(),
    }
}

/// The fields of a frontmatter block.
pub open spec fn fields_of_frontmatter(raw: Seq<char>) -> Seq<FieldView> {
    if trimmed(raw).len() == 0 {
        Seq::empty()
    } else {
        fields_of_document(yaml_document(raw))
    }
}

impl Frontmatter {
    /// Keeps `fields`.
    pub fn new(fields: Vec<MetadataField>) -> (frontmatter: Self)
        ensures
            frontmatter@ == field_views(fields@),
    {
        Frontmatter { fields }
    }

    /// The fields in document order.
    pub fn fields(&self) -> (fields: &Vec<MetadataField>)
        ensures
            field_views(fields@) == self@,
    {
        &self.fields
    }

    /// Whether there are no fields.
    pub fn is_empty(&self) -> (empty: bool)
        ensures
            empty == (self@.len() == 0),
    {
        self.fields.len() == 0
    }

    /// The fields of a block. A block that is blank, malformed or no mapping
    /// has none.
    pub fn from(raw: &RawFrontmatter) -> (frontmatter: Self)
        ensures
            frontmatter@ == fields_of_frontmatter(raw@),
    {
        if raw.is_empty() {
            let frontmatter = Frontmatter { fields: Vec::new() };
            assert(frontmatter@ =~= Seq::empty());
            return frontmatter;
        }
        Self::from_document(parse_yaml(raw.as_str()))
    }

    /// The fields of a parsed document.
    pub fn from_document(document: Option<YamlValue>) -> (frontmatter: Self)
        ensures
            frontmatter@ == fields_of_document(
                match document {
                    Some(value) => Some(value.contents()),
                    None => None,
                },
            ),
    {
        let mut fields: Vec<MetadataField> = Vec::new();
        assert(field_views(fields@) =~= Seq::empty());
        if let Some(YamlValue::Mapping(entries)) = document {
            let ghost views = yaml_entry_views(entries@);
            proof {
                lemma_yaml_entry_views(entries@);
                assert(views.take(0) =~= Seq::empty());
            }
            let mut i: usize = 0;
            while i < entries.len()
                invariant
                    i <= entries@.len(),
                    views == yaml_entry_views(entries@),
                    views.len() == entries@.len(),
                    forall|k: int|
                        0 <= k < entries@.len() ==> (#[trigger] views[k]) == (
                            entries@[k].0.contents(),
                            entries@[k].1.contents(),
                        ),
                    field_views(fields@) == fields_of_mapping(views.take(i as int)),
                decreases entries@.len() - i,
            {
                let ghost before = fields@;
                proof {
                    let next = views.take(i + 1);
                    assert(next.drop_last() =~= views.take(i as int));
                    assert(next.last() == views[i as int]);
                }
                if let Some(key) = yaml_scalar_to_string(&entries[i].0) {
                    let value = FieldValue::from_yaml(&entries[i].1);
                    let field = MetadataField::new(key.as_str(), value, FieldSource::Frontmatter);
                    fields.push(field);
                    assert(field_views(fields@) =~= field_views(before).push(field@));
                }
                i = i + 1;
            }
            assert(views.take(i as int) =~= views);
        }
        Frontmatter { fields }
    }
}

} // verus!
