//! Exact field names.

use vstd::prelude::*;
use vstd::string::*;

use super::key::{canonical_form, is_unsearchable, FieldKey};
use super::yaml::{scalar_text, yaml_scalar_to_string, YamlValue};
use crate::text::{contains_char, is_blank, quoted, quoted_text, trimmed};

verus! {

/// Why a text is no field name.
#[derive(Debug)]
pub enum FieldNameError {
    /// Nothing but whitespace.
    Empty,
    /// A slash, which separates scopes.
    ContainsSlash {
        /// The refused text.
        name: String,
    },
    /// No character that could be searched for.
    EmptyCanonical {
        /// The refused text.
        name: String,
    },
    /// A YAML value that is no scalar.
    UnsupportedYamlKey,
}

impl FieldNameError {
    /// Describes this error.
    pub fn message(&self) -> (text: String)
        ensures
            text@ == match self {
                FieldNameError::Empty => "field name is empty"@,
                FieldNameError::ContainsSlash { name } => "field name "@ + quoted_text(name@)
                    + " cannot contain `/`"@,
                FieldNameError::EmptyCanonical { name } => "field name "@ + quoted_text(name@)
                    + " has no searchable characters"@,
                FieldNameError::UnsupportedYamlKey => "YAML value cannot be used as a field name"@,
            },
    {
        match self {
            FieldNameError::Empty => "field name is empty".to_owned(),
            FieldNameError::ContainsSlash { name } => "field name ".to_owned().concat(
                quoted(name.as_str()).as_str(),
            ).concat(" cannot contain `/`"),
            FieldNameError::EmptyCanonical { name } => "field name ".to_owned().concat(
                quoted(name.as_str()).as_str(),
            ).concat(" has no searchable characters"),
            FieldNameError::UnsupportedYamlKey => "YAML value cannot be used as a field name".to_owned(),
        }
    }
}

/// `raw` is accepted as a field name.
pub open spec fn is_field_name(raw: Seq<char>) -> bool {
    trimmed(raw).len() > 0 && !raw.contains('/') && !is_unsearchable(raw) && canonical_form(
        raw,
    ).len() > 0
}

/// `error` is what is wrong with `raw`: of several faults the first in the
/// order blank, slash, not searchable.
pub open spec fn name_fault(raw: Seq<char>, error: FieldNameError) -> bool {
    match error {
        FieldNameError::Empty => trimmed(raw).len() == 0,
        FieldNameError::ContainsSlash { name } => trimmed(raw).len() > 0 && raw.contains('/')
            && name@ == raw,
        FieldNameError::EmptyCanonical { name } => trimmed(raw).len() > 0 && !raw.contains('/')
            && is_unsearchable(raw) && canonical_form(raw).len() == 0 && name@ == raw,
        FieldNameError::UnsupportedYamlKey => false,
    }
}

/// An exact field name.
#[derive(Debug)]
pub struct FieldName {
    text: String,
}

impl View for FieldName {
    type V = Seq<char>;

    closed spec fn view(&self) -> Seq<char> {
        self.text@
    }
}

/// A borrowed field name.
#[derive(Copy, Clone, Debug)]
pub struct FieldNameRef<'a> {
    text: &'a str,
}

impl<'a> View for FieldNameRef<'a> {
    type V = Seq<char>;

    closed spec fn view(&self) -> Seq<char> {
        self.text@
    }
}

impl FieldName {
    /// Says whether `raw` can be a field name, and why not.
    pub fn validate(raw: &str) -> (result: Result<(), FieldNameError>)
        ensures
            match result {
                Ok(_) => is_field_name(raw@),
                Err(error) => name_fault(raw@, error),
            },
    {
        if is_blank(raw) {
            return Err(FieldNameError::Empty);
        }
        if contains_char(raw, '/') {
            return Err(FieldNameError::ContainsSlash { name: raw.to_owned() });
        }
        if FieldKey::is_canonical_empty(raw) {
            return Err(FieldNameError::EmptyCanonical { name: raw.to_owned() });
        }
        Ok(())
    }

    /// Accepts a valid name.
    pub fn try_from(raw: &str) -> (result: Result<Self, FieldNameError>)
        ensures
            match result {
                Ok(name) => is_field_name(raw@) && name@ == raw@,
                Err(error) => name_fault(raw@, error),
            },
    {
        match Self::validate(raw) {
            Ok(_) => Ok(FieldName { text: raw.to_owned() }),
            Err(error) => Err(error),
        }
    }

    /// Accepts the text of a YAML scalar.
    pub fn try_from_yaml(value: &YamlValue) -> (result: Result<Self, FieldNameError>)
        ensures
            match scalar_text(value.contents()) {
                None => result matches Err(FieldNameError::UnsupportedYamlKey),
                Some(raw) => match result {
                    Ok(name) => is_field_name(raw) && name@ == raw,
                    Err(error) => name_fault(raw, error),
                },
            },
    {
        match yaml_scalar_to_string(value) {
            Some(raw) => Self::try_from(raw.as_str()),
            None => Err(FieldNameError::UnsupportedYamlKey),
        }
    }

    /// The name as text.
    pub fn as_str(&self) -> (text: &str)
        ensures
            text@ == self@,
    {
        self.text.as_str()
    }

    /// Borrows the name.
    pub fn as_ref(&self) -> (name: FieldNameRef<'_>)
        ensures
            name@ == self@,
    {
        FieldNameRef { text: self.text.as_str() }
    }

    /// The forgiving key of this name.
    pub fn to_key(&self) -> (key: FieldKey)
        ensures
            key.spec_name() == self@,
    {
        FieldKey::from_text(self.text.as_str())
    }
}

impl<'a> FieldNameRef<'a> {
    /// Accepts a valid name.
    pub fn try_from(raw: &'a str) -> (result: Result<Self, FieldNameError>)
        ensures
            match result {
                Ok(name) => is_field_name(raw@) && name@ == raw@,
                Err(error) => name_fault(raw@, error),
            },
    {
        match FieldName::validate(raw) {
            Ok(_) => Ok(FieldNameRef { text: raw }),
            Err(error) => Err(error),
        }
    }

    /// The name as text.
    pub fn as_str(self) -> (text: &'a str)
        ensures
            text@ == self@,
    {
        self.text
    }

    /// An owned copy of the name.
    pub fn to_owned_name(self) -> (name: FieldName)
        ensures
            name@ == self@,
    {
        FieldName { text: self.text.to_owned() }
    }
}

/// Field names differ in case alone and stay two names, yet their keys match.
pub proof fn law_names_are_exact_keys_forgive(a: FieldName, b: FieldName, key: FieldKey)
    requires
        key.spec_name() == a@,
        crate::text::ascii_lowered(a@) == crate::text::ascii_lowered(b@),
    ensures
        key.matches(b@),
{
    super::key::law_canonical_ignores_case(a@);
    super::key::law_canonical_ignores_case(b@);
}

} // verus!
