//! Tokens of filter expressions.
//!
//! The longest token that fits is taken. Words are runs of characters that are
//! neither whitespace nor one of `()",=!<>&|`; a word that is a keyword as a
//! whole is that keyword.

use vstd::prelude::*;
use vstd::string::*;

use super::error::QueryError;
use super::operators::{CompareOp, LogicalOp};
use crate::note::value::{FieldValue, ValueView};
use crate::number::{number_for, NumberView, NumberWords};
use crate::text::{
    ascii_lowered, chars_of, has_space_property, is_space, same_ignoring_ascii_case, same_text,
    text_between,
};

verus! {

/// Contents of a [`FilterToken`].
pub enum TokenView {
    /// `(`
    LParen,
    /// `)`
    RParen,
    /// `,`
    Comma,
    /// A logical operator.
    Logical(LogicalOp),
    /// `!` or `not`
    Not,
    /// A comparison operator.
    Op(CompareOp),
    /// A literal.
    Literal(ValueView),
    /// Any other word.
    Ident(Seq<char>),
}

/// A token of a filter expression.
#[derive(Debug)]
pub enum FilterToken {
    /// `(`
    LParen,
    /// `)`
    RParen,
    /// `,`
    Comma,
    /// A logical operator.
    Logical(LogicalOp),
    /// `!` or `not`
    Not,
    /// A comparison operator.
    Op(CompareOp),
    /// A literal.
    Literal(FieldValue),
    /// Any other word.
    Ident(String),
}

impl View for FilterToken {
    type V = TokenView;

    open spec fn view(&self) -> TokenView {
        match self {
            FilterToken::LParen => TokenView::LParen,
            FilterToken::RParen => TokenView::RParen,
            FilterToken::Comma => TokenView::Comma,
            FilterToken::Logical(op) => TokenView::Logical(*op),
            FilterToken::Not => TokenView::Not,
            FilterToken::Op(op) => TokenView::Op(*op),
            FilterToken::Literal(value) => TokenView::Literal(value.contents()),
            FilterToken::Ident(word) => TokenView::Ident(word@),
        }
    }
}

/// The contents of each token.
pub open spec fn token_views(tokens: Seq<FilterToken>) -> Seq<TokenView> {
    Seq::new(tokens.len(), |i: int| tokens[i]@)
}

/// A character between tokens.
pub open spec fn is_gap(c: char) -> bool {
    c == ' ' || c == '\t' || c == '\n' || c == '\r' || c == '\u{c}'
}

/// A character of a word.
pub open spec fn is_word_part(c: char) -> bool {
    !is_space(c) && c != '(' && c != ')' && c != '"' && c != ',' && c != '=' && c != '!' && c
        != '<' && c != '>' && c != '&' && c != '|'
}

/// How many characters at the front of `s` belong to a word.
pub open spec fn word_len(s: Seq<char>) -> nat
    decreases s.len(),
{
    if s.len() > 0 && is_word_part(s[0]) {
        1 + word_len(s.drop_first())
    } else {
        0
    }
}

/// The string whose text starts at the front of `s`: its text without escapes,
/// and how many characters it takes with the closing quote. A backslash makes
/// the next character, unless that is a line end, stand for itself.
pub open spec fn string_body(s: Seq<char>) -> Option<(Seq<char>, nat)>
    decreases s.len(),
{
    if s.len() == 0 {
        None
    } else if s[0] == '"' {
        Some((Seq::empty(), 1))
    } else if s[0] == '\\' {
        if s.len() > 1 && s[1] != '\n' {
            match string_body(s.skip(2)) {
                Some((text, len)) => Some((seq![s[1]] + text, len + 2)),
                None => None,
            }
        } else {
            None
        }
    } else {
        match string_body(s.skip(1)) {
            Some((text, len)) => Some((seq![s[0]] + text, len + 1)),
            None => None,
        }
    }
}

/// The token that a whole word is. `numbers` tells which words read as
/// numbers.
pub open spec fn word_token(word: Seq<char>, numbers: Seq<(Seq<char>, NumberView)>) -> TokenView {
    if ascii_lowered(word) == ascii_lowered("and"@) {
        TokenView::Logical(LogicalOp::And)
    } else if ascii_lowered(word) == ascii_lowered("or"@) {
        TokenView::Logical(LogicalOp::Or)
    } else if ascii_lowered(word) == ascii_lowered("not"@) {
        TokenView::Not
    } else if word == "true"@ {
        TokenView::Literal(ValueView::Bool(true))
    } else if word == "false"@ {
        TokenView::Literal(ValueView::Bool(false))
    } else if word == "null"@ || word == "Null"@ {
        TokenView::Literal(ValueView::Null)
    } else {
        match number_for(numbers, word) {
            Some(number) => TokenView::Literal(ValueView::Number(number)),
            None => TokenView::Ident(word),
        }
    }
}

/// The operator written with `c` and perhaps `=` behind it.
pub open spec fn with_equals(s: Seq<char>, bare: TokenView, equals: TokenView) -> (TokenView, nat) {
    if s.len() > 1 && s[1] == '=' {
        (equals, 2)
    } else {
        (bare, 1)
    }
}

/// The token at the front of `s` and how many characters it takes.
pub open spec fn token_read(s: Seq<char>, numbers: Seq<(Seq<char>, NumberView)>) -> Option<
    (TokenView, nat),
> {
    if s.len() == 0 {
        None
    } else if s[0] == '(' {
        Some((TokenView::LParen, 1))
    } else if s[0] == ')' {
        Some((TokenView::RParen, 1))
    } else if s[0] == ',' {
        Some((TokenView::Comma, 1))
    } else if s[0] == '!' {
        Some(with_equals(s, TokenView::Not, TokenView::Op(CompareOp::Ne)))
    } else if s[0] == '<' {
        Some(
            with_equals(s, TokenView::Op(CompareOp::Lt), TokenView::Op(CompareOp::Le)),
        )
    } else if s[0] == '>' {
        Some(
            with_equals(s, TokenView::Op(CompareOp::Gt), TokenView::Op(CompareOp::Ge)),
        )
    } else if s[0] == '=' {
        if s.len() > 1 && s[1] == '=' {
            Some((TokenView::Op(CompareOp::Eq), 2))
        } else {
            None
        }
    } else if s[0] == '&' {
        if s.len() > 1 && s[1] == '&' {
            Some((TokenView::Logical(LogicalOp::And), 2))
        } else {
            None
        }
    } else if s[0] == '|' {
        if s.len() > 1 && s[1] == '|' {
            Some((TokenView::Logical(LogicalOp::Or), 2))
        } else {
            None
        }
    } else if s[0] == '"' {
        match string_body(s.skip(1)) {
            Some((text, len)) => Some((TokenView::Literal(ValueView::String(text)), len + 1)),
            None => None,
        }
    } else if word_len(s) > 0 {
        Some((word_token(s.take(word_len(s) as int), numbers), word_len(s)))
    } else {
        None
    }
}

/// A string ends within the text.
pub proof fn lemma_string_within(s: Seq<char>)
    ensures
        match string_body(s) {
            Some((_, len)) => 0 < len <= s.len(),
            None => true,
        },
    decreases s.len(),
{
    if s.len() > 0 && s[0] != '"' {
        if s[0] == '\\' {
            if s.len() > 1 {
                lemma_string_within(s.skip(2));
            }
        } else {
            lemma_string_within(s.skip(1));
        }
    }
}

pub proof fn lemma_word_within(s: Seq<char>)
    ensures
        word_len(s) <= s.len(),
    decreases s.len(),
{
    if s.len() > 0 && is_word_part(s[0]) {
        lemma_word_within(s.drop_first());
    }
}

/// A token takes at least one character and ends within the text.
pub proof fn lemma_token_within(s: Seq<char>, numbers: Seq<(Seq<char>, NumberView)>)
    ensures
        match token_read(s, numbers) {
            Some((_, len)) => 0 < len <= s.len(),
            None => true,
        },
{
    lemma_word_within(s);
    if s.len() > 0 {
        lemma_string_within(s.skip(1));
    }
}

/// The tokens of `s`; nothing where a part of it is no token.
pub open spec fn tokens_read(s: Seq<char>, numbers: Seq<(Seq<char>, NumberView)>) -> Option<
    Seq<TokenView>,
>
    decreases s.len(),
{
    if s.len() == 0 {
        Some(Seq::empty())
    } else if is_gap(s[0]) {
        tokens_read(s.drop_first(), numbers)
    } else {
        match token_read(s, numbers) {
            None => None,
            Some((token, len)) => {
                proof {
                    lemma_token_within(s, numbers);
                }
                match tokens_read(s.skip(len as int), numbers) {
                    None => None,
                    Some(rest) => Some(seq![token] + rest),
                }
            },
        }
    }
}

fn is_word_char(c: char) -> (part: bool)
    ensures
        part == is_word_part(c),
{
    !has_space_property(c) && c != '(' && c != ')' && c != '"' && c != ',' && c != '=' && c != '!'
        && c != '<' && c != '>' && c != '&' && c != '|'
}

proof fn lemma_word_len(s: Seq<char>, n: int)
    requires
        0 <= n <= s.len(),
        forall|i: int| 0 <= i < n ==> is_word_part(s[i]),
        n < s.len() ==> !is_word_part(s[n]),
    ensures
        word_len(s) == n,
    decreases n,
{
    if n > 0 {
        let rest = s.drop_first();
        assert forall|i: int| 0 <= i < n - 1 implies is_word_part(rest[i]) by {
            assert(rest[i] == s[i + 1]);
        }
        lemma_word_len(rest, n - 1);
    }
}

/// Where the word that starts at `pos` ends.
fn word_end(chars: &Vec<char>, pos: usize) -> (end: usize)
    requires
        pos <= chars@.len(),
    ensures
        end == pos + word_len(chars@.skip(pos as int)),
        end <= chars@.len(),
{
    let mut end: usize = pos;
    while end < chars.len() && is_word_char(chars[end])
        invariant
            pos <= end <= chars@.len(),
            forall|i: int| pos <= i < end ==> is_word_part(chars@[i]),
        decreases chars@.len() - end,
    {
        end = end + 1;
    }
    proof {
        let rest = chars@.skip(pos as int);
        assert forall|i: int| 0 <= i < end - pos implies is_word_part(rest[i]) by {
            assert(rest[i] == chars@[i + pos]);
        }
        if end < chars@.len() {
            assert(rest[end - pos] == chars@[end as int]);
        }
        lemma_word_len(rest, end - pos);
    }
    end
}

/// Reads the string whose text starts at `pos`: its text without escapes, and
/// where it ends.
fn string_callback(chars: &Vec<char>, pos: usize) -> (result: Option<(String, usize)>)
    requires
        pos <= chars@.len(),
    ensures
        match (result, string_body(chars@.skip(pos as int))) {
            (Some(found), Some((text, len))) => {
                &&& found.0@ == text
                &&& found.1 == pos + len
                &&& found.1 <= chars@.len()
            },
            (None, None) => true,
            _ => false,
        },
{
    let ghost s = chars@;
    let ghost whole = string_body(s.skip(pos as int));
    let mut text = String::new();
    let mut at: usize = pos;
    proof {
        if let Some((t, len)) = whole {
            assert(Seq::<char>::empty() + t =~= t);
        }
    }
    while at < chars.len()
        invariant
            s == chars@,
            pos <= at <= s.len(),
            match (whole, string_body(s.skip(at as int))) {
                (Some((all, len)), Some((rest, rest_len))) => {
                    &&& all == text@ + rest
                    &&& pos + len == at + rest_len
                },
                (None, None) => true,
                _ => false,
            },
            whole == string_body(s.skip(pos as int)),
        decreases s.len() - at,
    {
        let ghost here = s.skip(at as int);
        let c: char = chars[at];
        assert(here[0] == c);
        if c == '"' {
            proof {
                assert(text@ + Seq::<char>::empty() =~= text@);
            }
            return Some((text, at + 1));
        }
        if c == '\\' {
            if chars.len() - at > 1 && chars[at + 1] != '\n' {
                let escaped: char = chars[at + 1];
                assert(here[1] == escaped);
                assert(here.skip(2) =~= s.skip(at + 2));
                let ghost before = text@;
                text.push(escaped);
                proof {
                    if let Some((rest, _)) = string_body(s.skip(at + 2)) {
                        assert(before + (seq![escaped] + rest) =~= text@ + rest);
                    }
                }
                at = at + 2;
            } else {
                return None;
            }
        } else {
            assert(here.skip(1) =~= s.skip(at + 1));
            let ghost before = text@;
            text.push(c);
            proof {
                if let Some((rest, _)) = string_body(s.skip(at + 1)) {
                    assert(before + (seq![c] + rest) =~= text@ + rest);
                }
            }
            at = at + 1;
        }
    }
    assert(s.skip(at as int).len() == 0);
    None
}

/// The token that a whole word is.
fn reclassify(word: String, numbers: &NumberWords) -> (token: FilterToken)
    ensures
        token@ == word_token(word@, numbers@),
{
    if same_ignoring_ascii_case(word.as_str(), "and") {
        FilterToken::Logical(LogicalOp::And)
    } else if same_ignoring_ascii_case(word.as_str(), "or") {
        FilterToken::Logical(LogicalOp::Or)
    } else if same_ignoring_ascii_case(word.as_str(), "not") {
        FilterToken::Not
    } else if same_text(word.as_str(), "true") {
        FilterToken::Literal(FieldValue::Bool(true))
    } else if same_text(word.as_str(), "false") {
        FilterToken::Literal(FieldValue::Bool(false))
    } else if same_text(word.as_str(), "null") || same_text(word.as_str(), "Null") {
        FilterToken::Literal(FieldValue::Null)
    } else {
        match numbers.find(word.as_str()) {
            Some(number) => FilterToken::Literal(FieldValue::Number(number)),
            None => FilterToken::Ident(word),
        }
    }
}

/// Reads the token at `pos` and where it ends.
fn next_token(chars: &Vec<char>, pos: usize, numbers: &NumberWords) -> (result: Option<
    (FilterToken, usize),
>)
    requires
        pos < chars@.len(),
    ensures
        match (result, token_read(chars@.skip(pos as int), numbers@)) {
            (Some(found), Some((token, len))) => {
                &&& found.0@ == token
                &&& found.1 == pos + len
                &&& pos < found.1 <= chars@.len()
            },
            (None, None) => true,
            _ => false,
        },
{
    let ghost s = chars@.skip(pos as int);
    let c: char = chars[pos];
    let next: Option<char> = if chars.len() - pos > 1 {
        Some(chars[pos + 1])
    } else {
        None
    };
    assert(s[0] == c);
    assert(next is Some ==> s[1] == next.unwrap());
    assert(s.skip(1) =~= chars@.skip(pos + 1));
    let doubled = match next {
        Some(d) => d == c,
        None => false,
    };
    let equals = match next {
        Some(d) => d == '=',
        None => false,
    };
    if c == '(' {
        Some((FilterToken::LParen, pos + 1))
    } else if c == ')' {
        Some((FilterToken::RParen, pos + 1))
    } else if c == ',' {
        Some((FilterToken::Comma, pos + 1))
    } else if c == '!' {
        if equals {
            Some((FilterToken::Op(CompareOp::Ne), pos + 2))
        } else {
            Some((FilterToken::Not, pos + 1))
        }
    } else if c == '<' {
        if equals {
            Some((FilterToken::Op(CompareOp::Le), pos + 2))
        } else {
            Some((FilterToken::Op(CompareOp::Lt), pos + 1))
        }
    } else if c == '>' {
        if equals {
            Some((FilterToken::Op(CompareOp::Ge), pos + 2))
        } else {
            Some((FilterToken::Op(CompareOp::Gt), pos + 1))
        }
    } else if c == '=' {
        if equals {
            Some((FilterToken::Op(CompareOp::Eq), pos + 2))
        } else {
            None
        }
    } else if c == '&' {
        if doubled {
            Some((FilterToken::Logical(LogicalOp::And), pos + 2))
        } else {
            None
        }
    } else if c == '|' {
        if doubled {
            Some((FilterToken::Logical(LogicalOp::Or), pos + 2))
        } else {
            None
        }
    } else if c == '"' {
        match string_callback(chars, pos + 1) {
            Some((text, end)) => {
                proof {
                    lemma_string_within(s.skip(1));
                }
                Some((FilterToken::Literal(FieldValue::String(text)), end))
            },
            None => None,
        }
    } else {
        let end = word_end(chars, pos);
        if end > pos {
            let word = text_between(chars.as_slice(), pos, end);
            assert(word@ =~= s.take(end - pos));
            Some((reclassify(word, numbers), end))
        } else {
            None
        }
    }
}

/// The tokens of a filter expression. `numbers` tells which words read as
/// numbers.
pub fn tokenize_filter_expr(expr: &str, numbers: &NumberWords) -> (result: Result<
    Vec<FilterToken>,
    QueryError,
>)
    ensures
        match result {
            Ok(tokens) => tokens_read(expr@, numbers@) == Some(token_views(tokens@)),
            Err(error) => tokens_read(expr@, numbers@) is None && error.refuses_filter(expr@),
        },
{
    let chars = chars_of(expr);
    let ghost s = chars@;
    let mut tokens: Vec<FilterToken> = Vec::new();
    let mut pos: usize = 0;
    assert(s.skip(0) =~= s);
    proof {
        if let Some(rest) = tokens_read(s, numbers@) {
            assert(token_views(tokens@) + rest =~= rest);
        }
    }
    while pos < chars.len()
        invariant
            s == chars@,
            s == expr@,
            pos <= s.len(),
            match (tokens_read(s, numbers@), tokens_read(s.skip(pos as int), numbers@)) {
                (Some(all), Some(rest)) => all == token_views(tokens@) + rest,
                (None, None) => true,
                _ => false,
            },
        decreases s.len() - pos,
    {
        let ghost here = s.skip(pos as int);
        let c: char = chars[pos];
        assert(here[0] == c);
        if c == ' ' || c == '\t' || c == '\n' || c == '\r' || c == '\u{c}' {
            assert(here.drop_first() =~= s.skip(pos + 1));
            pos = pos + 1;
        } else {
            match next_token(&chars, pos, numbers) {
                None => {
                    return Err(QueryError::unparsable_filter(expr));
                },
                Some((token, end)) => {
                    let ghost before = tokens@;
                    tokens.push(token);
                    proof {
                        assert(here.skip(end - pos) =~= s.skip(end as int));
                        assert(token_views(tokens@) =~= token_views(before).push(token@));
                        if let Some(rest) = tokens_read(s.skip(end as int), numbers@) {
                            assert(token_views(before) + (seq![token@] + rest) =~= token_views(
                                tokens@,
                            ) + rest);
                        }
                    }
                    pos = end;
                },
            }
        }
    }
    proof {
        assert(s.skip(pos as int).len() == 0);
        assert(token_views(tokens@) + Seq::<TokenView>::empty() =~= token_views(tokens@));
    }
    Ok(tokens)
}

/// The words of a filter expression that are no keywords, so that their
/// readings as numbers can be looked up. Nothing is returned where a part of
/// the expression is no token.
pub fn filter_words(expr: &str) -> (words: Option<Vec<String>>)
    ensures
        match words {
            Some(found) => {
                &&& tokens_read(expr@, Seq::empty()) is Some
                &&& crate::query::record::string_texts(found@) == idents_of(
                    tokens_read(expr@, Seq::empty()).unwrap(),
                )
            },
            None => tokens_read(expr@, Seq::empty()) is None,
        },
{
    let numbers = NumberWords::new();
    assert(numbers@ =~= Seq::empty());
    let tokens = match tokenize_filter_expr(expr, &numbers) {
        Ok(tokens) => tokens,
        Err(_) => return None,
    };
    let ghost views = token_views(tokens@);
    let mut words: Vec<String> = Vec::new();
    assert(crate::query::record::string_texts(words@) =~= idents_of(views.take(0)));
    let mut i: usize = 0;
    while i < tokens.len()
        invariant
            i <= tokens@.len(),
            views == token_views(tokens@),
            crate::query::record::string_texts(words@) == idents_of(views.take(i as int)),
        decreases tokens@.len() - i,
    {
        let ghost before = words@;
        proof {
            let next = views.take(i + 1);
            assert(next.drop_last() =~= views.take(i as int));
            assert(next.last() == tokens@[i as int]@);
        }
        if let FilterToken::Ident(word) = &tokens[i] {
            words.push(word.clone());
            assert(crate::query::record::string_texts(words@)
                =~= crate::query::record::string_texts(before).push(word@));
        }
        i = i + 1;
    }
    assert(views.take(i as int) =~= views);
    Some(words)
}

/// The words among `tokens`.
pub open spec fn idents_of(tokens: Seq<TokenView>) -> Seq<Seq<char>>
    decreases tokens.len(),
{
    if tokens.len() == 0 {
        Seq::empty()
    } else {
        let before = idents_of(tokens.drop_last());
        match tokens.last() {
            TokenView::Ident(word) => before.push(word),
            _ => before,
        }
    }
}

/// A word is taken as a whole: an operator or keyword at its front does not
/// split it.
pub proof fn law_word_is_one_token(
    word: Seq<char>,
    rest: Seq<char>,
    numbers: Seq<(Seq<char>, NumberView)>,
)
    requires
        word.len() > 0,
        forall|i: int| 0 <= i < word.len() ==> is_word_part(#[trigger] word[i]),
        rest.len() > 0 ==> !is_word_part(rest[0]),
    ensures
        token_read(word + rest, numbers) == Some((word_token(word, numbers), word.len())),
{
    let s = word + rest;
    assert forall|i: int| 0 <= i < word.len() implies is_word_part(s[i]) by {
        assert(s[i] == word[i]);
    }
    if rest.len() > 0 {
        assert(s[word.len() as int] == rest[0]);
    }
    lemma_word_len(s, word.len() as int);
    assert(s.take(word.len() as int) =~= word);
    assert(is_word_part(s[0]));
}

} // verus!
