//! Forgiving field keys.

use vstd::prelude::*;
use vstd::string::*;

use super::name::FieldName;
use super::yaml::{scalar_text, yaml_scalar_to_string, YamlValue};
use crate::text::{
    ascii_lower, ascii_lowered, chars_of, is_ascii_space, is_blank, is_digit, is_letter, is_space,
    quoted, quoted_text, same_text, to_ascii_lower, trimmed,
};

verus! {

/// The characters that `char::to_lowercase` yields for `c`.
pub uninterp spec fn lowercase_of(c: char) -> Seq<char>;

/// Lower-cases one character with `char::to_lowercase`, which yields one or
/// more characters.
#[verifier::external_body]
fn lowercase(c: char) -> (lower: Vec<char>)
    ensures
        lower@ == lowercase_of(c),
        lower@.len() > 0,
{
    c.to_lowercase().collect()
}

/// A character that stays in the canonical form.
pub open spec fn is_kept(c: char) -> bool {
    c == '_' || c == '-' || is_letter(c) || is_digit(c) || c > '\u{7f}'
}

/// What `c` becomes in the canonical form.
pub open spec fn canonical_char(c: char) -> Seq<char> {
    if is_ascii_space(c) {
        seq!['-']
    } else if c > '\u{7f}' {
        lowercase_of(c)
    } else if is_kept(c) {
        seq![ascii_lower(c)]
    } else {
        Seq::empty()
    }
}

/// The canonical form of `s`: ASCII whitespace becomes `-`, letters are
/// lower-cased, other punctuation is dropped.
pub open spec fn canonical_form(s: Seq<char>) -> Seq<char>
    decreases s.len(),
{
    if s.len() == 0 {
        Seq::empty()
    } else {
        canonical_form(s.drop_last()) + canonical_char(s.last())
    }
}

/// Nothing of `s` stays in the canonical form.
pub open spec fn is_unsearchable(s: Seq<char>) -> bool {
    forall|i: int| 0 <= i < s.len() ==> !is_ascii_space(#[trigger] s[i]) && !is_kept(s[i])
}

fn keeps(c: char) -> (kept: bool)
    ensures
        kept == is_kept(c),
{
    c == '_' || c == '-' || ('a' <= c && c <= 'z') || ('A' <= c && c <= 'Z') || ('0' <= c && c
        <= '9') || c > '\u{7f}'
}

fn is_ascii_whitespace(c: char) -> (space: bool)
    ensures
        space == is_ascii_space(c),
{
    c == ' ' || c == '\t' || c == '\n' || c == '\u{c}' || c == '\r'
}

/// Why a text is no field key.
#[derive(Debug)]
pub enum FieldKeyError {
    /// Nothing but whitespace.
    Empty,
    /// No character that could be searched for.
    EmptyCanonical {
        /// The refused text.
        name: String,
    },
    /// A YAML value that is no scalar.
    UnsupportedYamlKey,
}

impl FieldKeyError {
    /// Describes this error.
    pub fn message(&self) -> (text: String)
        ensures
            text@ == match self {
                FieldKeyError::Empty => "field key is empty"@,
                FieldKeyError::EmptyCanonical { name } => "field key "@ + quoted_text(name@)
                    + " has no searchable characters"@,
                FieldKeyError::UnsupportedYamlKey => "YAML value cannot be used as a field key"@,
            },
    {
        match self {
            FieldKeyError::Empty => "field key is empty".to_owned(),
            FieldKeyError::EmptyCanonical { name } => "field key ".to_owned().concat(
                quoted(name.as_str()).as_str(),
            ).concat(" has no searchable characters"),
            FieldKeyError::UnsupportedYamlKey => "YAML value cannot be used as a field key".to_owned(),
        }
    }
}

/// A field key: the text as written and its canonical form.
#[derive(Debug)]
pub struct FieldKey {
    name: String,
    canonical: String,
}

impl FieldKey {
    /// The text as written.
    pub closed spec fn spec_name(self) -> Seq<char> {
        self.name@
    }

    /// The canonical form of the text.
    pub open spec fn spec_canonical(self) -> Seq<char> {
        canonical_form(self.spec_name())
    }

    /// The stored canonical form belongs to the text.
    #[verifier::type_invariant]
    spec fn holds_canonical(self) -> bool {
        self.canonical@ == canonical_form(self.name@)
    }

    /// Accepts a text with at least one searchable character.
    pub fn try_new(raw: &str) -> (result: Result<Self, FieldKeyError>)
        ensures
            match result {
                Ok(key) => {
                    &&& trimmed(raw@).len() > 0
                    &&& !is_unsearchable(raw@)
                    &&& key.spec_name() == raw@
                    &&& key.spec_canonical().len() > 0
                },
                Err(FieldKeyError::Empty) => trimmed(raw@).len() == 0,
                Err(FieldKeyError::EmptyCanonical { name }) => {
                    &&& trimmed(raw@).len() > 0
                    &&& is_unsearchable(raw@)
                    &&& canonical_form(raw@).len() == 0
                    &&& name@ == raw@
                },
                Err(FieldKeyError::UnsupportedYamlKey) => false,
            },
    {
        if is_blank(raw) {
            return Err(FieldKeyError::Empty);
        }
        if Self::is_canonical_empty(raw) {
            return Err(FieldKeyError::EmptyCanonical { name: raw.to_owned() });
        }
        Ok(Self::from_text(raw))
    }

    /// Accepts the text of a YAML scalar.
    pub fn try_from_yaml(value: &YamlValue) -> (result: Result<Self, FieldKeyError>)
        ensures
            match scalar_text(value.contents()) {
                None => result matches Err(FieldKeyError::UnsupportedYamlKey),
                Some(raw) => match result {
                    Ok(key) => {
                        &&& trimmed(raw).len() > 0
                        &&& !is_unsearchable(raw)
                        &&& key.spec_name() == raw
                        &&& key.spec_canonical().len() > 0
                    },
                    Err(FieldKeyError::Empty) => trimmed(raw).len() == 0,
                    Err(FieldKeyError::EmptyCanonical { name }) => {
                        &&& trimmed(raw).len() > 0
                        &&& is_unsearchable(raw)
                        &&& canonical_form(raw).len() == 0
                        &&& name@ == raw
                    },
                    Err(FieldKeyError::UnsupportedYamlKey) => false,
                },
            },
    {
        match yaml_scalar_to_string(value) {
            Some(raw) => Self::try_new(raw.as_str()),
            None => Err(FieldKeyError::UnsupportedYamlKey),
        }
    }

    /// Pairs any text with its canonical form.
    pub fn from_text(raw: &str) -> (key: Self)
        ensures
            key.spec_name() == raw@,
    {
        FieldKey { name: raw.to_owned(), canonical: Self::canonicalize(raw) }
    }

    /// The text as written.
    pub fn name(&self) -> (name: &str)
        ensures
            name@ == self.spec_name(),
    {
        self.name.as_str()
    }

    /// The canonical form.
    pub fn canonical(&self) -> (canonical: &str)
        ensures
            canonical@ == self.spec_canonical(),
    {
        proof {
            use_type_invariant(self);
        }
        self.canonical.as_str()
    }

    /// `candidate` names this key: exactly, or by its canonical form.
    pub open spec fn matches(self, candidate: Seq<char>) -> bool {
        self.spec_name() == candidate || self.spec_canonical() == candidate
            || self.spec_canonical() == canonical_form(candidate)
    }

    /// Whether `candidate` names this key.
    pub fn is_match(&self, candidate: &str) -> (found: bool)
        ensures
            found == self.matches(candidate@),
    {
        same_text(self.name.as_str(), candidate) || self.is_canonical_match(candidate)
    }

    /// Whether `candidate` is, or has, this key's canonical form.
    pub fn is_canonical_match(&self, candidate: &str) -> (found: bool)
        ensures
            found == (self.spec_canonical() == candidate@ || self.spec_canonical()
                == canonical_form(candidate@)),
    {
        proof {
            use_type_invariant(self);
        }
        same_text(self.canonical.as_str(), candidate) || same_text(
            self.canonical.as_str(),
            Self::canonicalize(candidate).as_str(),
        )
    }

    /// Whether `candidate` is exactly this key's text.
    pub fn is_name_match(&self, candidate: &FieldName) -> (found: bool)
        ensures
            found == (self.spec_name() == candidate@),
    {
        same_text(self.name.as_str(), candidate.as_str())
    }

    /// A key with the same text and canonical form.
    pub fn copy(&self) -> (key: Self)
        ensures
            key.spec_name() == self.spec_name(),
    {
        proof {
            use_type_invariant(self);
        }
        FieldKey { name: self.name.clone(), canonical: self.canonical.clone() }
    }

    /// Writes the canonical form of `raw`. It is empty exactly where `raw` has no
    /// searchable character.
    pub fn canonicalize(raw: &str) -> (canonical: String)
        ensures
            canonical@ == canonical_form(raw@),
            (canonical@.len() == 0) == is_unsearchable(raw@),
    {
        let chars = chars_of(raw);
        let mut canonical = String::new();
        let mut i: usize = 0;
        assert(chars@.take(0) =~= Seq::empty());
        while i < chars.len()
            invariant
                i <= chars@.len(),
                canonical@ == canonical_form(chars@.take(i as int)),
                (canonical@.len() == 0) == is_unsearchable(chars@.take(i as int)),
            decreases chars@.len() - i,
        {
            let c: char = chars[i];
            let ghost before = canonical@;
            let ghost front = chars@.take(i as int);
            proof {
                assert(chars@.take(i + 1).drop_last() =~= front);
                assert(chars@.take(i + 1).last() == c);
                lemma_unsearchable_step(chars@.take(i + 1));
            }
            let piece = canonical_piece(c);
            let mut j: usize = 0;
            while j < piece.len()
                invariant
                    j <= piece@.len(),
                    canonical@ == before + piece@.take(j as int),
                decreases piece@.len() - j,
            {
                canonical.push(piece[j]);
                j = j + 1;
                assert(piece@.take(j as int) =~= piece@.take(j - 1).push(piece@[j - 1]));
            }
            assert(piece@.take(j as int) =~= piece@);
            i = i + 1;
        }
        assert(chars@.take(i as int) =~= raw@);
        canonical
    }

    /// Whether nothing of `raw` stays in the canonical form.
    pub fn is_canonical_empty(raw: &str) -> (empty: bool)
        ensures
            empty == is_unsearchable(raw@),
            empty == (canonical_form(raw@).len() == 0),
    {
        let chars = chars_of(raw);
        let mut i: usize = 0;
        assert(chars@.take(0) =~= Seq::empty());
        while i < chars.len()
            invariant
                i <= chars@.len(),
                chars@ == raw@,
                is_unsearchable(chars@.take(i as int)),
                canonical_form(chars@.take(i as int)).len() == 0,
            decreases chars@.len() - i,
        {
            let ghost next = chars@.take(i + 1);
            proof {
                assert(next.drop_last() =~= chars@.take(i as int));
                assert(next.last() == chars@[i as int]);
                lemma_unsearchable_step(next);
            }
            let piece = canonical_piece(chars[i]);
            if piece.len() > 0 {
                proof {
                    assert(is_ascii_space(raw@[i as int]) || is_kept(raw@[i as int]));
                    assert(raw@ =~= next + raw@.skip(i + 1));
                    law_canonical_of_joined(next, raw@.skip(i + 1));
                }
                return false;
            }
            i = i + 1;
        }
        assert(chars@.take(i as int) =~= raw@);
        true
    }
}

/// What `c` becomes in the canonical form.
fn canonical_piece(c: char) -> (piece: Vec<char>)
    ensures
        piece@ == canonical_char(c),
        piece@.len() > 0 <==> is_ascii_space(c) || is_kept(c),
{
    let mut piece: Vec<char> = Vec::new();
    if is_ascii_whitespace(c) {
        piece.push('-');
    } else if c > '\u{7f}' {
        return lowercase(c);
    } else if keeps(c) {
        piece.push(to_ascii_lower(c));
    }
    assert(piece@ =~= canonical_char(c));
    piece
}

proof fn lemma_unsearchable_step(s: Seq<char>)
    requires
        s.len() > 0,
    ensures
        is_unsearchable(s) == (is_unsearchable(s.drop_last()) && !is_ascii_space(s.last())
            && !is_kept(s.last())),
{
    if is_unsearchable(s) {
        assert(!is_ascii_space(s[s.len() - 1]) && !is_kept(s[s.len() - 1]));
        assert forall|i: int| 0 <= i < s.drop_last().len() implies !is_ascii_space(
            #[trigger] s.drop_last()[i],
        ) && !is_kept(s.drop_last()[i]) by {
            assert(s.drop_last()[i] == s[i]);
        }
    }
    if is_unsearchable(s.drop_last()) && !is_ascii_space(s.last()) && !is_kept(s.last()) {
        assert forall|i: int| 0 <= i < s.len() implies !is_ascii_space(#[trigger] s[i])
            && !is_kept(s[i]) by {
            if i < s.len() - 1 {
                assert(s.drop_last()[i] == s[i]);
            }
        }
    }
}

impl PartialEq for FieldKey {
    fn eq(&self, other: &Self) -> (same: bool) {
        proof {
            use_type_invariant(self);
            use_type_invariant(other);
        }
        same_text(self.canonical.as_str(), other.canonical.as_str())
    }
}

impl vstd::std_specs::cmp::PartialEqSpecImpl for FieldKey {
    open spec fn obeys_eq_spec() -> bool {
        true
    }

    open spec fn eq_spec(&self, other: &Self) -> bool {
        self.spec_canonical() == other.spec_canonical()
    }
}

impl Eq for FieldKey {

}

/// A text whose characters are all dropped has an empty canonical form.
pub proof fn law_unsearchable_is_empty(s: Seq<char>)
    requires
        is_unsearchable(s),
    ensures
        canonical_form(s).len() == 0,
    decreases s.len(),
{
    if s.len() > 0 {
        lemma_unsearchable_step(s);
        law_unsearchable_is_empty(s.drop_last());
    }
}

/// The canonical form of two texts that are joined is made of their canonical
/// forms.
pub proof fn law_canonical_of_joined(a: Seq<char>, b: Seq<char>)
    ensures
        canonical_form(a + b) == canonical_form(a) + canonical_form(b),
    decreases b.len(),
{
    if b.len() == 0 {
        assert(a + b =~= a);
        assert(canonical_form(a) + canonical_form(b) =~= canonical_form(a));
    } else {
        assert((a + b).drop_last() =~= a + b.drop_last());
        assert((a + b).last() == b.last());
        law_canonical_of_joined(a, b.drop_last());
        assert(canonical_form(a + b) =~= canonical_form(a) + canonical_form(b));
    }
}

/// A text with an ASCII character that is kept has a canonical form that is
/// not empty.
pub proof fn law_searchable_is_not_empty(s: Seq<char>, i: int)
    requires
        0 <= i < s.len(),
        s[i] <= '\u{7f}',
        is_ascii_space(s[i]) || is_kept(s[i]),
    ensures
        canonical_form(s).len() > 0,
    decreases s.len(),
{
    if i < s.len() - 1 {
        law_searchable_is_not_empty(s.drop_last(), i);
    }
}

/// Canonical forms do not depend on the case of ASCII letters.
pub proof fn law_canonical_ignores_case(s: Seq<char>)
    ensures
        canonical_form(ascii_lowered(s)) == canonical_form(s),
    decreases s.len(),
{
    let lowered = ascii_lowered(s);
    if s.len() > 0 {
        law_canonical_ignores_case(s.drop_last());
        assert(lowered.drop_last() =~= ascii_lowered(s.drop_last()));
        assert(lowered.last() == ascii_lower(s.last()));
        assert(canonical_char(ascii_lower(s.last())) =~= canonical_char(s.last()));
    } else {
        assert(lowered =~= s);
    }
}

/// The characters beyond ASCII in `s` have lower-case forms that stay as they
/// are when they are made canonical.
pub open spec fn has_stable_case(s: Seq<char>) -> bool {
    forall|i: int|
        0 <= i < s.len() && #[trigger] s[i] > '\u{7f}' ==> canonical_form(lowercase_of(s[i]))
            == lowercase_of(s[i])
}

proof fn lemma_stable_char(c: char)
    requires
        c > '\u{7f}' ==> canonical_form(lowercase_of(c)) == lowercase_of(c),
    ensures
        canonical_form(canonical_char(c)) == canonical_char(c),
{
    let piece = canonical_char(c);
    if c <= '\u{7f}' && piece.len() > 0 {
        assert(piece.drop_last() =~= Seq::empty());
        assert(canonical_form(piece.drop_last()).len() == 0);
        assert(canonical_char(piece.last()) =~= piece);
        assert(canonical_form(piece) =~= piece);
    }
}

/// A canonical form is canonical itself. That holds of every ASCII text, and of
/// others as far as their lower-case forms have no case left to lower.
pub proof fn law_canonical_is_stable(s: Seq<char>)
    requires
        has_stable_case(s),
    ensures
        canonical_form(canonical_form(s)) == canonical_form(s),
    decreases s.len(),
{
    if s.len() > 0 {
        let front = s.drop_last();
        assert forall|i: int| 0 <= i < front.len() && #[trigger] front[i] > '\u{7f}' implies
        canonical_form(lowercase_of(front[i])) == lowercase_of(front[i]) by {
            assert(front[i] == s[i]);
        }
        law_canonical_is_stable(front);
        assert(s.last() == s[s.len() - 1]);
        lemma_stable_char(s.last());
        law_canonical_of_joined(canonical_form(front), canonical_char(s.last()));
    }
}

/// Texts with one canonical form name each other's keys.
pub proof fn law_same_canonical_matches(key: FieldKey, candidate: Seq<char>)
    requires
        canonical_form(key.spec_name()) == canonical_form(candidate),
    ensures
        key.matches(candidate),
{
}

/// A key matches its own text and its canonical form. Its text adds nothing to
/// what its canonical form matches, so that keys that are equal match the same
/// candidates.
pub proof fn law_match_is_by_canonical_form(key: FieldKey, other: FieldKey, candidate: Seq<char>)
    ensures
        key.matches(key.spec_name()),
        key.matches(key.spec_canonical()),
        key.matches(candidate) <==> key.spec_canonical() == candidate || key.spec_canonical()
            == canonical_form(candidate),
        key.spec_canonical() == other.spec_canonical() ==> (key.matches(candidate)
            <==> other.matches(candidate)),
{
}

/// A key matches exactly the candidates that have its canonical form.
pub proof fn law_match_is_equal_canonical_form(key: FieldKey, candidate: Seq<char>)
    requires
        has_stable_case(key.spec_name()),
    ensures
        key.matches(candidate) <==> canonical_form(candidate) == key.spec_canonical(),
{
    law_canonical_is_stable(key.spec_name());
}

} // verus!
