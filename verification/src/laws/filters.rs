//! What a filter text means, and which rows satisfy it.

use vstd::prelude::*;
use vstd::string::*;

use super::fields::law_refused_paths_are_named;
use super::order::{comes_before, holds_text, law_texts_compare};
use crate::note::value::{value_text, ValueView};
use crate::number::{number_for, NumberView};
use crate::query::error::QueryError;
use crate::query::field::{path_of, PathView};
use crate::query::filter::{
    and_arms, and_read, call_read, comparison_read, expr_holds, filter_read, filter_refusal,
    item_matches, not_read, or_arms, or_read, primary_read, value_contains, ExprRead, ExprView,
    FilterFault, FilterRead,
};
use crate::query::operators::{compare_op, logical_op, op_holds, CompareOp, LogicalOp};
use crate::query::record::{resolved, RecordView};
use crate::query::token::{
    is_word_part, law_word_is_one_token, string_body, token_read, tokens_read, word_token,
    TokenView,
};
use crate::text::{ascii_lowered, begins_with, has_text, occurs_at, trimmed};

verus! {

/// A row with a text in a field satisfies a comparison of that field with a text
/// as the two texts stand to each other in a dictionary.
pub proof fn law_rows_are_compared_by_their_text(
    row: RecordView,
    path: PathView,
    literal: ValueView,
    x: Seq<char>,
    y: Seq<char>,
)
    requires
        holds_text(resolved(row, path), x),
        holds_text(literal, y),
    ensures
        expr_holds(ExprView::Comparison(path, CompareOp::Lt, literal), row) <==> comes_before(x, y),
        expr_holds(ExprView::Comparison(path, CompareOp::Gt, literal), row) <==> comes_before(y, x),
        expr_holds(ExprView::Comparison(path, CompareOp::Le, literal), row) <==> comes_before(x, y)
            || x == y,
        expr_holds(ExprView::Comparison(path, CompareOp::Ge, literal), row) <==> comes_before(y, x)
            || x == y,
        expr_holds(ExprView::Comparison(path, CompareOp::Eq, literal), row) <==> x == y,
        expr_holds(ExprView::Comparison(path, CompareOp::Ne, literal), row) <==> x != y,
{
    law_texts_compare(resolved(row, path), literal, x, y);
}

/// A comparison speaks of what the row gives at the path and of nothing else.
/// `NOT` turns any expression round.
pub proof fn law_comparisons_speak_of_their_field(
    a: RecordView,
    path: PathView,
    op: CompareOp,
    literal: ValueView,
    expr: ExprView,
)
    ensures
        expr_holds(ExprView::Comparison(path, op, literal), a) <==> op_holds(
            op,
            resolved(a, path),
            literal,
        ),
        expr_holds(ExprView::Contains(path, literal), a) <==> value_contains(
            resolved(a, path),
            literal,
        ),
        expr_holds(ExprView::Not(Box::new(expr)), a) <==> !expr_holds(expr, a),
{
}

/// One text stands in another exactly where that one is put together of
/// something, the first text and something.
pub proof fn law_texts_within_texts(hay: Seq<char>, needle: Seq<char>, a: Seq<char>, b: Seq<char>)
    ensures
        has_text(a + needle + b, needle),
        begins_with(needle + b, needle),
        has_text(hay, needle) ==> exists|front: Seq<char>, back: Seq<char>| hay == #[trigger] (front
            + needle + back),
        begins_with(hay, needle) ==> exists|back: Seq<char>| hay == #[trigger] (needle + back),
{
    let whole = a + needle + b;
    assert(whole.subrange(a.len() as int, (a.len() + needle.len()) as int) =~= needle);
    assert(occurs_at(whole, needle, a.len() as int));
    assert((needle + b).subrange(0, needle.len() as int) =~= needle);
    if has_text(hay, needle) {
        let at = choose|at: int| occurs_at(hay, needle, at);
        let front = hay.take(at);
        let back = hay.skip(at + needle.len());
        assert(hay =~= front + needle + back);
    }
    if begins_with(hay, needle) {
        let back = hay.skip(needle.len() as int);
        assert(hay =~= needle + back);
    }
}

/// A text contains another text exactly where the other stands in it.
pub proof fn law_texts_contain_their_parts(
    value: ValueView,
    target: ValueView,
    x: Seq<char>,
    y: Seq<char>,
)
    requires
        holds_text(value, x),
        holds_text(target, y),
    ensures
        value_contains(value, target) <==> exists|front: Seq<char>, back: Seq<char>| x
            == #[trigger] (front + y + back),
{
    law_texts_within_texts(x, y, Seq::empty(), Seq::empty());
    if exists|front: Seq<char>, back: Seq<char>| x == #[trigger] (front + y + back) {
        let (front, back) = choose|front: Seq<char>, back: Seq<char>| x == #[trigger] (front + y
            + back);
        law_texts_within_texts(x, y, front, back);
    }
}

/// A list contains a value exactly where one of its items is equal to it, or is
/// a tag nested under it: its text, a slash and more.
pub proof fn law_lists_contain_their_items(items: Seq<ValueView>, target: ValueView)
    ensures
        value_contains(ValueView::List(items), target) <==> exists|i: int|
            0 <= i < items.len() && (op_holds(CompareOp::Eq, #[trigger] items[i], target)
                || is_below(items[i], target)),
{
    let list = ValueView::List(items);
    assert(list->List_0 == items);
    assert forall|i: int| 0 <= i < items.len() implies (item_matches(#[trigger] items[i], target)
        <==> op_holds(CompareOp::Eq, items[i], target) || is_below(items[i], target)) by {
        lemma_matches(items[i], target);
    }
    if value_contains(list, target) {
        let i = choose|i: int| 0 <= i < items.len() && item_matches(#[trigger] items[i], target);
        assert(op_holds(CompareOp::Eq, items[i], target) || is_below(items[i], target));
    }
    if exists|i: int|
        0 <= i < items.len() && (op_holds(CompareOp::Eq, #[trigger] items[i], target) || is_below(
            items[i],
            target,
        )) {
        let i = choose|i: int|
            0 <= i < items.len() && (op_holds(CompareOp::Eq, #[trigger] items[i], target)
                || is_below(items[i], target));
        assert(item_matches(items[i], target));
    }
}

/// Both are texts, and the first is the second, a slash and more.
pub open spec fn is_below(item: ValueView, target: ValueView) -> bool {
    exists|parent: Seq<char>, more: Seq<char>|
        holds_text(target, parent) && holds_text(
            item,
            #[trigger] (parent + seq!['/'] + more),
        )
}

proof fn lemma_matches(item: ValueView, target: ValueView)
    ensures
        item_matches(item, target) <==> op_holds(CompareOp::Eq, item, target) || is_below(
            item,
            target,
        ),
{
    match (value_text(item), value_text(target)) {
        (Some(x), Some(y)) => {
            assert(holds_text(item, x));
            assert(holds_text(target, y));
            law_texts_compare(item, target, x, y);
            let prefix = y.push('/');
            law_texts_within_texts(x, prefix, Seq::empty(), Seq::empty());
            if begins_with(x, prefix) {
                let more = choose|back: Seq<char>| x == #[trigger] (prefix + back);
                assert(x =~= y + seq!['/'] + more);
                assert(holds_text(item, y + seq!['/'] + more));
            }
            if is_below(item, target) {
                let (parent, more) = choose|parent: Seq<char>, more: Seq<char>|
                    holds_text(target, parent) && holds_text(
                        item,
                        #[trigger] (parent + seq!['/'] + more),
                    );
                assert(parent == y);
                assert(x =~= prefix + more);
                law_texts_within_texts(x, prefix, Seq::empty(), more);
            }
        },
        _ => {},
    }
}

/// Only texts and lists contain anything.
pub proof fn law_other_values_contain_nothing(value: ValueView, target: ValueView)
    requires
        value is Null || value is Bool || value is Number || value is Link || value is Object,
    ensures
        !value_contains(value, target),
{
}

/// How an operator is written.
pub open spec fn written_op(op: CompareOp) -> Seq<char> {
    match op {
        CompareOp::Eq => seq!['=', '='],
        CompareOp::Ne => seq!['!', '='],
        CompareOp::Lt => seq!['<'],
        CompareOp::Le => seq!['<', '='],
        CompareOp::Gt => seq!['>'],
        CompareOp::Ge => seq!['>', '='],
    }
}

/// An operator is read as it is written, whatever follows but for an equals sign.
pub proof fn law_operators_are_read_as_written(
    op: CompareOp,
    rest: Seq<char>,
    numbers: Seq<(Seq<char>, NumberView)>,
)
    requires
        rest.len() > 0 ==> rest[0] != '=',
    ensures
        token_read(written_op(op) + rest, numbers) == Some(
            (TokenView::Op(op), written_op(op).len()),
        ),
        compare_op(written_op(op)) == Some(op),
{
    let s = written_op(op) + rest;
    assert(s[0] == written_op(op)[0]);
    if written_op(op).len() > 1 {
        assert(s[1] == '=');
    } else if rest.len() > 0 {
        assert(s[1] == rest[0]);
    }
    reveal_strlit("==");
    reveal_strlit("!=");
    reveal_strlit(">=");
    reveal_strlit("<=");
    reveal_strlit(">");
    reveal_strlit("<");
    assert("=="@ =~= seq!['=', '=']);
    assert("!="@ =~= seq!['!', '=']);
    assert(">="@ =~= seq!['>', '=']);
    assert("<="@ =~= seq!['<', '=']);
    assert(">"@ =~= seq!['>']);
    assert("<"@ =~= seq!['<']);
    assert(written_op(op)[0] == s[0]);
}

/// No other text is an operator.
pub proof fn law_nothing_else_is_an_operator(spelling: Seq<char>)
    ensures
        compare_op(spelling) is Some ==> spelling == written_op(compare_op(spelling).unwrap()),
        logical_op(spelling) is Some ==> spelling.len() <= 3,
{
    reveal_strlit("==");
    reveal_strlit("!=");
    reveal_strlit(">=");
    reveal_strlit("<=");
    reveal_strlit(">");
    reveal_strlit("<");
    reveal_strlit("&&");
    reveal_strlit("||");
    reveal_strlit("and");
    reveal_strlit("or");
    assert("=="@ =~= seq!['=', '=']);
    assert("!="@ =~= seq!['!', '=']);
    assert(">="@ =~= seq!['>', '=']);
    assert("<="@ =~= seq!['<', '=']);
    assert(">"@ =~= seq!['>']);
    assert("<"@ =~= seq!['<']);
    assert(ascii_lowered(spelling).len() == spelling.len());
    assert(ascii_lowered("and"@).len() == 3);
    assert(ascii_lowered("or"@).len() == 2);
}

/// Parentheses, commas, `&&`, `||` and `!` are read as they are written.
pub proof fn law_marks_are_read_as_written(rest: Seq<char>, numbers: Seq<(Seq<char>, NumberView)>)
    ensures
        token_read(seq!['('] + rest, numbers) == Some((TokenView::LParen, 1nat)),
        token_read(seq![')'] + rest, numbers) == Some((TokenView::RParen, 1nat)),
        token_read(seq![','] + rest, numbers) == Some((TokenView::Comma, 1nat)),
        token_read(seq!['&', '&'] + rest, numbers) == Some(
            (TokenView::Logical(LogicalOp::And), 2nat),
        ),
        token_read(seq!['|', '|'] + rest, numbers) == Some(
            (TokenView::Logical(LogicalOp::Or), 2nat),
        ),
        rest.len() > 0 && rest[0] != '=' ==> token_read(seq!['!'] + rest, numbers) == Some(
            (TokenView::Not, 1nat),
        ),
        logical_op(seq!['&', '&']) == Some(LogicalOp::And),
        logical_op(seq!['|', '|']) == Some(LogicalOp::Or),
{
    let a = seq!['&', '&'] + rest;
    let o = seq!['|', '|'] + rest;
    let n = seq!['!'] + rest;
    assert((seq!['('] + rest)[0] == '(');
    assert((seq![')'] + rest)[0] == ')');
    assert((seq![','] + rest)[0] == ',');
    assert(a[0] == '&' && a[1] == '&');
    assert(o[0] == '|' && o[1] == '|');
    assert(n[0] == '!');
    if rest.len() > 0 {
        assert(n[1] == rest[0]);
    }
    reveal_strlit("&&");
    reveal_strlit("||");
    reveal_strlit("and");
    reveal_strlit("or");
    assert("&&"@ =~= seq!['&', '&']);
    assert("||"@ =~= seq!['|', '|']);
    assert(ascii_lowered("and"@).len() == 3);
    assert(ascii_lowered(seq!['|', '|']).len() == 2);
    assert(seq!['|', '|'][0] != seq!['&', '&'][0]);
}

/// A letter written small.
pub open spec fn small(c: char, letter: char, capital: char) -> bool {
    c == letter || c == capital
}

/// `and`, `or` and `not` are operators, in small letters or capitals or both.
pub proof fn law_keywords_are_read_in_any_case(
    word: Seq<char>,
    numbers: Seq<(Seq<char>, NumberView)>,
)
    ensures
        word.len() == 3 && small(word[0], 'a', 'A') && small(word[1], 'n', 'N') && small(
            word[2],
            'd',
            'D',
        ) ==> word_token(word, numbers) == TokenView::Logical(LogicalOp::And) && logical_op(word)
            == Some(LogicalOp::And),
        word.len() == 2 && small(word[0], 'o', 'O') && small(word[1], 'r', 'R') ==> word_token(
            word,
            numbers,
        ) == TokenView::Logical(LogicalOp::Or) && logical_op(word) == Some(LogicalOp::Or),
        word.len() == 3 && small(word[0], 'n', 'N') && small(word[1], 'o', 'O') && small(
            word[2],
            't',
            'T',
        ) ==> word_token(word, numbers) == TokenView::Not,
{
    reveal_strlit("and");
    reveal_strlit("or");
    reveal_strlit("not");
    reveal_strlit("&&");
    reveal_strlit("||");
    let low = ascii_lowered(word);
    assert(ascii_lowered("and"@) =~= seq!['a', 'n', 'd']);
    assert(ascii_lowered("or"@) =~= seq!['o', 'r']);
    assert(ascii_lowered("not"@) =~= seq!['n', 'o', 't']);
    if word.len() == 3 {
        if small(word[0], 'a', 'A') && small(word[1], 'n', 'N') && small(word[2], 'd', 'D') {
            assert(low =~= seq!['a', 'n', 'd']);
        }
        if small(word[0], 'n', 'N') && small(word[1], 'o', 'O') && small(word[2], 't', 'T') {
            assert(low =~= seq!['n', 'o', 't']);
            assert(low[0] == 'n');
            assert(seq!['a', 'n', 'd'][0] == 'a');
        }
    }
    if word.len() == 2 && small(word[0], 'o', 'O') && small(word[1], 'r', 'R') {
        assert(low =~= seq!['o', 'r']);
        assert(word[0] != '&' && word[0] != '|');
        assert("&&"@[0] == '&');
    }
}

/// `true`, `false`, `null` and `Null` are values; a word that reads as a number is
/// that number; every other word names a field.
pub proof fn law_words_are_values_or_names(word: Seq<char>, numbers: Seq<(Seq<char>, NumberView)>)
    requires
        ascii_lowered(word) != seq!['a', 'n', 'd'],
        ascii_lowered(word) != seq!['o', 'r'],
        ascii_lowered(word) != seq!['n', 'o', 't'],
    ensures
        word_token(word, numbers) == if word == seq!['t', 'r', 'u', 'e'] {
            TokenView::Literal(ValueView::Bool(true))
        } else if word == seq!['f', 'a', 'l', 's', 'e'] {
            TokenView::Literal(ValueView::Bool(false))
        } else if word == seq!['n', 'u', 'l', 'l'] || word == seq!['N', 'u', 'l', 'l'] {
            TokenView::Literal(ValueView::Null)
        } else if number_for(numbers, word) is Some {
            TokenView::Literal(ValueView::Number(number_for(numbers, word).unwrap()))
        } else {
            TokenView::Ident(word)
        },
{
    reveal_strlit("and");
    reveal_strlit("or");
    reveal_strlit("not");
    reveal_strlit("true");
    reveal_strlit("false");
    reveal_strlit("null");
    reveal_strlit("Null");
    assert(ascii_lowered("and"@) =~= seq!['a', 'n', 'd']);
    assert(ascii_lowered("or"@) =~= seq!['o', 'r']);
    assert(ascii_lowered("not"@) =~= seq!['n', 'o', 't']);
    assert("true"@ =~= seq!['t', 'r', 'u', 'e']);
    assert("false"@ =~= seq!['f', 'a', 'l', 's', 'e']);
    assert("null"@ =~= seq!['n', 'u', 'l', 'l']);
    assert("Null"@ =~= seq!['N', 'u', 'l', 'l']);
    assert(seq!['t', 'r', 'u', 'e'][0] == 't' && seq!['n', 'u', 'l', 'l'][0] == 'n'
        && seq!['N', 'u', 'l', 'l'][0] == 'N');
}

/// A text as it is written between quotes: a backslash before each quote and
/// each backslash.
pub open spec fn escaped_for_quotes(text: Seq<char>) -> Seq<char>
    decreases text.len(),
{
    if text.len() == 0 {
        Seq::empty()
    } else if text[0] == '"' || text[0] == '\\' {
        seq!['\\', text[0]] + escaped_for_quotes(text.drop_first())
    } else {
        seq![text[0]] + escaped_for_quotes(text.drop_first())
    }
}

proof fn lemma_quoted_body(text: Seq<char>, rest: Seq<char>)
    ensures
        string_body(escaped_for_quotes(text) + seq!['"'] + rest) == Some(
            (text, escaped_for_quotes(text).len() + 1),
        ),
    decreases text.len(),
{
    let s = escaped_for_quotes(text) + seq!['"'] + rest;
    if text.len() == 0 {
        assert(s[0] == '"');
        assert(Seq::<char>::empty() =~= text);
    } else {
        let tail = escaped_for_quotes(text.drop_first()) + seq!['"'] + rest;
        lemma_quoted_body(text.drop_first(), rest);
        assert(text =~= seq![text[0]] + text.drop_first());
        if text[0] == '"' || text[0] == '\\' {
            assert(s[0] == '\\' && s[1] == text[0]);
            assert(s.skip(2) =~= tail);
        } else {
            assert(s[0] == text[0]);
            assert(s.skip(1) =~= tail);
        }
    }
}

/// A text between quotes is read back as it is, with what stands behind it left
/// for the next token.
pub proof fn law_quoted_texts_are_read_back(
    text: Seq<char>,
    rest: Seq<char>,
    numbers: Seq<(Seq<char>, NumberView)>,
)
    ensures
        token_read(seq!['"'] + escaped_for_quotes(text) + seq!['"'] + rest, numbers) == Some(
            (TokenView::Literal(ValueView::String(text)), escaped_for_quotes(text).len() + 2),
        ),
{
    let s = seq!['"'] + escaped_for_quotes(text) + seq!['"'] + rest;
    assert(s[0] == '"');
    assert(s.skip(1) =~= escaped_for_quotes(text) + seq!['"'] + rest);
    lemma_quoted_body(text, rest);
}

/// Whitespace between tokens does not count.
pub proof fn law_gaps_do_not_count(
    c: char,
    rest: Seq<char>,
    numbers: Seq<(Seq<char>, NumberView)>,
)
    requires
        c == ' ' || c == '\t' || c == '\n' || c == '\r',
    ensures
        tokens_read(seq![c] + rest, numbers) == tokens_read(rest, numbers),
{
    let s = seq![c] + rest;
    assert(s[0] == c);
    assert(s.drop_first() =~= rest);
}

/// A character of a plain field name: an ASCII letter or a digit.
pub open spec fn is_plain(c: char) -> bool {
    ('a' <= c && c <= 'z') || ('A' <= c && c <= 'Z') || ('0' <= c && c <= '9') || c == '_' || c
        == '-' || c == '.'
}

/// A comparison as it is written: the field, the operator and a text in quotes,
/// with spaces between.
pub open spec fn written_comparison(field: Seq<char>, op: CompareOp, text: Seq<char>) -> Seq<char> {
    field + seq![' '] + written_op(op) + seq![' ', '"'] + escaped_for_quotes(text) + seq!['"']
}

/// A comparison means what it says: the named field stands to the quoted text as
/// the operator says.
pub proof fn law_comparisons_are_read_as_written(
    field: Seq<char>,
    op: CompareOp,
    text: Seq<char>,
    numbers: Seq<(Seq<char>, NumberView)>,
)
    requires
        field.len() > 0,
        forall|i: int| 0 <= i < field.len() ==> is_plain(#[trigger] field[i]),
        word_token(field, numbers) == TokenView::Ident(field),
        path_of(field) is Some,
    ensures
        filter_read(written_comparison(field, op, text), numbers) == FilterRead::Expr(
            ExprView::Comparison(path_of(field).unwrap(), op, ValueView::String(text)),
        ),
{
    let none = Seq::<char>::empty();
    let quoted = seq!['"'] + escaped_for_quotes(text) + seq!['"'] + none;
    let literal = TokenView::Literal(ValueView::String(text));
    law_quoted_texts_are_read_back(text, none, numbers);
    assert(quoted[0] == '"');
    assert(quoted.skip((escaped_for_quotes(text).len() + 2) as int) =~= none);
    assert(tokens_read(none, numbers) == Some(Seq::<TokenView>::empty()));
    assert(tokens_read(quoted, numbers) == Some(seq![literal] + Seq::<TokenView>::empty()));
    let third = seq![' '] + quoted;
    law_gaps_do_not_count(' ', quoted, numbers);
    assert(third[0] == ' ');
    let second = written_op(op) + third;
    law_operators_are_read_as_written(op, third, numbers);
    assert(second[0] == written_op(op)[0]);
    assert(second.skip(written_op(op).len() as int) =~= third);
    let first = seq![' '] + second;
    law_gaps_do_not_count(' ', second, numbers);
    let whole = field + first;
    assert(first[0] == ' ');
    assert forall|i: int| 0 <= i < field.len() implies is_word_part(#[trigger] field[i]) by {
        assert(is_plain(field[i]));
    }
    law_word_is_one_token(field, first, numbers);
    assert(whole[0] == field[0]);
    assert(is_plain(field[0]));
    assert(whole.skip(field.len() as int) =~= first);
    assert(whole =~= written_comparison(field, op, text));
    let tokens = seq![TokenView::Ident(field), TokenView::Op(op), literal];
    assert(seq![TokenView::Ident(field)] + (seq![TokenView::Op(op)] + (seq![literal] + Seq::<
        TokenView,
    >::empty())) =~= tokens);
    assert(tokens_read(whole, numbers) == Some(tokens));
    lemma_comparison_tokens(field, op, ValueView::String(text));
}

proof fn lemma_comparison_tokens(field: Seq<char>, op: CompareOp, value: ValueView)
    requires
        path_of(field) is Some,
    ensures
        ({
            let tokens = seq![
                TokenView::Ident(field),
                TokenView::Op(op),
                TokenView::Literal(value),
            ];
            let expr = ExprView::Comparison(path_of(field).unwrap(), op, value);
            &&& not_read(tokens) == ExprRead::Expr(expr, Seq::<TokenView>::empty())
            &&& or_read(tokens) == ExprRead::Expr(expr, Seq::<TokenView>::empty())
        }),
{
    let none = Seq::<TokenView>::empty();
    let tokens = seq![TokenView::Ident(field), TokenView::Op(op), TokenView::Literal(value)];
    let expr = ExprView::Comparison(path_of(field).unwrap(), op, value);
    let rest = tokens.skip(1);
    assert(rest[0] == TokenView::Op(op) && rest[1] == TokenView::Literal(value));
    assert(rest.skip(2) =~= none);
    assert(comparison_read(field, rest) == ExprRead::Expr(expr, none));
    assert(tokens[0] == TokenView::Ident(field) && tokens[1] == TokenView::Op(op));
    assert(primary_read(tokens) == ExprRead::Expr(expr, none));
    lemma_alone(tokens, expr);
}

proof fn lemma_alone(t: Seq<TokenView>, expr: ExprView)
    requires
        not_read(t) == ExprRead::Expr(expr, Seq::<TokenView>::empty()),
    ensures
        and_read(t) == ExprRead::Expr(expr, Seq::<TokenView>::empty()),
        or_read(t) == ExprRead::Expr(expr, Seq::<TokenView>::empty()),
{
    let none = Seq::<TokenView>::empty();
    assert(seq![expr][0] == expr);
    assert(and_arms(none, seq![expr]) == ExprRead::Expr(expr, none));
    assert(and_read(t) == ExprRead::Expr(expr, none));
    assert(or_arms(none, seq![expr]) == ExprRead::Expr(expr, none));
}

/// `contains` with a field and a value asks whether that field contains it, in
/// small letters or capitals or both.
pub proof fn law_contains_is_read_as_written(
    name: Seq<char>,
    field: Seq<char>,
    value: ValueView,
)
    requires
        path_of(field) is Some,
        ascii_lowered(name) == seq!['c', 'o', 'n', 't', 'a', 'i', 'n', 's'],
    ensures
        or_read(
            seq![
                TokenView::Ident(name),
                TokenView::LParen,
                TokenView::Ident(field),
                TokenView::Comma,
                TokenView::Literal(value),
                TokenView::RParen,
            ],
        ) == ExprRead::Expr(
            ExprView::Contains(path_of(field).unwrap(), value),
            Seq::<TokenView>::empty(),
        ),
{
    let none = Seq::<TokenView>::empty();
    let tokens = seq![
        TokenView::Ident(name),
        TokenView::LParen,
        TokenView::Ident(field),
        TokenView::Comma,
        TokenView::Literal(value),
        TokenView::RParen,
    ];
    reveal_strlit("contains");
    assert(ascii_lowered("contains"@) =~= ascii_lowered(name));
    let rest = tokens.skip(1);
    assert(rest[0] == TokenView::LParen && rest[1] == TokenView::Ident(field));
    assert(rest[2] == TokenView::Comma && rest[3] == TokenView::Literal(value));
    assert(rest[4] == TokenView::RParen);
    assert(rest.skip(5) =~= none);
    let expr = ExprView::Contains(path_of(field).unwrap(), value);
    assert(call_read(name, rest) == ExprRead::Expr(expr, none));
    assert(tokens[0] == TokenView::Ident(name) && tokens[1] == TokenView::LParen);
    assert(primary_read(tokens) == ExprRead::Expr(expr, none));
    lemma_alone(tokens, expr);
}

/// What follows an expression that is read is left as it is.
spec fn leaves(before: ExprRead, whole: ExprRead, more: Seq<TokenView>) -> bool {
    match before {
        ExprRead::Fault(_) => true,
        ExprRead::Expr(expr, rest) => whole == ExprRead::Expr(expr, rest + more),
    }
}

proof fn lemma_primary_leaves(t: Seq<TokenView>, more: Seq<TokenView>)
    ensures
        leaves(primary_read(t), primary_read(t + more), more),
    decreases t.len(), 0nat,
{
    let whole = t + more;
    if t.len() > 0 {
        let next = t.skip(1);
        assert(whole[0] == t[0]);
        assert(whole.skip(1) =~= next + more);
        match t[0] {
            TokenView::LParen => {
                lemma_or_leaves(next, more);
                match or_read(next) {
                    ExprRead::Fault(_) => {},
                    ExprRead::Expr(inner, rest) => if rest.len() > 0 && rest[0] is RParen {
                        assert((rest + more)[0] == rest[0]);
                        assert((rest + more).skip(1) =~= rest.skip(1) + more);
                    },
                }
            },
            TokenView::Ident(name) => {
                if t.len() > 1 {
                    assert(whole[1] == t[1]);
                    let tail = next + more;
                    if t[1] is LParen {
                        if next.len() > 4 {
                            assert(tail[1] == next[1] && tail[2] == next[2]);
                            assert(tail[3] == next[3] && tail[4] == next[4]);
                            assert(tail.skip(5) =~= next.skip(5) + more);
                        }
                    } else if next.len() > 1 {
                        assert(tail[0] == next[0] && tail[1] == next[1]);
                        assert(tail.skip(2) =~= next.skip(2) + more);
                    }
                }
            },
            _ => {},
        }
    }
}

proof fn lemma_not_leaves(t: Seq<TokenView>, more: Seq<TokenView>)
    ensures
        leaves(not_read(t), not_read(t + more), more),
    decreases t.len(), 1nat,
{
    let whole = t + more;
    if t.len() > 0 {
        assert(whole[0] == t[0]);
        if t[0] is Not {
            assert(whole.skip(1) =~= t.skip(1) + more);
            lemma_not_leaves(t.skip(1), more);
        } else {
            lemma_primary_leaves(t, more);
        }
    } else {
        assert(primary_read(t) is Fault);
    }
}

proof fn lemma_and_arms_leave(t: Seq<TokenView>, arms: Seq<ExprView>, more: Seq<TokenView>)
    ensures
        and_arms(t, arms) is Expr && and_arms(t, arms)->Expr_1.len() > 0 ==> leaves(
            and_arms(t, arms),
            and_arms(t + more, arms),
            more,
        ),
    decreases t.len(), 2nat,
{
    let whole = t + more;
    if t.len() > 0 {
        assert(whole[0] == t[0]);
        if t[0] == TokenView::Logical(LogicalOp::And) {
            assert(whole.skip(1) =~= t.skip(1) + more);
            lemma_not_leaves(t.skip(1), more);
            match not_read(t.skip(1)) {
                ExprRead::Fault(_) => {},
                ExprRead::Expr(next, rest) => if rest.len() < t.len() {
                    lemma_and_arms_leave(rest, arms.push(next), more);
                },
            }
        }
    }
}

proof fn lemma_and_leaves(t: Seq<TokenView>, more: Seq<TokenView>)
    ensures
        and_read(t) is Expr && and_read(t)->Expr_1.len() > 0 ==> leaves(
            and_read(t),
            and_read(t + more),
            more,
        ),
    decreases t.len(), 3nat,
{
    lemma_not_leaves(t, more);
    match not_read(t) {
        ExprRead::Fault(_) => {},
        ExprRead::Expr(first, rest) => if rest.len() <= t.len() {
            lemma_and_arms_leave(rest, seq![first], more);
        },
    }
}

proof fn lemma_or_arms_leave(t: Seq<TokenView>, arms: Seq<ExprView>, more: Seq<TokenView>)
    ensures
        or_arms(t, arms) is Expr && or_arms(t, arms)->Expr_1.len() > 0 ==> leaves(
            or_arms(t, arms),
            or_arms(t + more, arms),
            more,
        ),
    decreases t.len(), 4nat,
{
    let whole = t + more;
    if t.len() > 0 {
        assert(whole[0] == t[0]);
        if t[0] == TokenView::Logical(LogicalOp::Or) {
            assert(whole.skip(1) =~= t.skip(1) + more);
            match and_read(t.skip(1)) {
                ExprRead::Fault(_) => {},
                ExprRead::Expr(next, rest) => if rest.len() < t.len() {
                    if rest.len() > 0 {
                        lemma_and_leaves(t.skip(1), more);
                        lemma_or_arms_leave(rest, arms.push(next), more);
                    }
                },
            }
        }
    }
}

proof fn lemma_or_leaves(t: Seq<TokenView>, more: Seq<TokenView>)
    ensures
        or_read(t) is Expr && or_read(t)->Expr_1.len() > 0 ==> leaves(
            or_read(t),
            or_read(t + more),
            more,
        ),
    decreases t.len(), 5nat,
{
    match and_read(t) {
        ExprRead::Fault(_) => {},
        ExprRead::Expr(first, rest) => if rest.len() <= t.len() && rest.len() > 0 {
            lemma_and_leaves(t, more);
            lemma_or_arms_leave(rest, seq![first], more);
        },
    }
}

/// All of `t` is one operand: a comparison, a call, something in parentheses, or
/// one of these behind `NOT`.
pub open spec fn is_operand(t: Seq<TokenView>, expr: ExprView) -> bool {
    not_read(t) == ExprRead::Expr(expr, Seq::<TokenView>::empty())
}

proof fn lemma_operand(t: Seq<TokenView>, expr: ExprView, more: Seq<TokenView>)
    requires
        is_operand(t, expr),
    ensures
        not_read(t + more) == ExprRead::Expr(expr, more),
{
    lemma_not_leaves(t, more);
    assert(Seq::<TokenView>::empty() + more =~= more);
}

proof fn lemma_two_arms(
    a: Seq<TokenView>,
    b: Seq<TokenView>,
    x: ExprView,
    y: ExprView,
    more: Seq<TokenView>,
)
    requires
        is_operand(a, x),
        is_operand(b, y),
        more.len() > 0 ==> more[0] != TokenView::Logical(LogicalOp::And),
    ensures
        and_read(a + seq![TokenView::Logical(LogicalOp::And)] + b + more) == ExprRead::Expr(
            ExprView::Logical(LogicalOp::And, seq![x, y]),
            more,
        ),
{
    let and = TokenView::Logical(LogicalOp::And);
    let tail = seq![and] + (b + more);
    lemma_operand(a, x, tail);
    assert(a + seq![and] + b + more =~= a + tail);
    assert(tail[0] == and);
    assert(tail.skip(1) =~= b + more);
    lemma_operand(b, y, more);
    assert(seq![x].push(y) =~= seq![x, y]);
    assert(and_arms(more, seq![x, y]) == ExprRead::Expr(
        ExprView::Logical(LogicalOp::And, seq![x, y]),
        more,
    ));
}

/// `AND` binds closer than `OR`, and `NOT` closer than both: operands with `AND`
/// between them belong together, and the groups that `OR` parts are its arms.
pub proof fn law_and_binds_closer_than_or(
    a: Seq<TokenView>,
    b: Seq<TokenView>,
    c: Seq<TokenView>,
    x: ExprView,
    y: ExprView,
    z: ExprView,
)
    requires
        is_operand(a, x),
        is_operand(b, y),
        is_operand(c, z),
    ensures
        ({
            let and = seq![TokenView::Logical(LogicalOp::And)];
            let or = seq![TokenView::Logical(LogicalOp::Or)];
            let not = seq![TokenView::Not];
            let none = Seq::<TokenView>::empty();
            &&& or_read(a) == ExprRead::Expr(x, none)
            &&& or_read(a + and + b) == ExprRead::Expr(
                ExprView::Logical(LogicalOp::And, seq![x, y]),
                none,
            )
            &&& or_read(a + or + b) == ExprRead::Expr(
                ExprView::Logical(LogicalOp::Or, seq![x, y]),
                none,
            )
            &&& or_read(a + or + (b + and + c)) == ExprRead::Expr(
                ExprView::Logical(
                    LogicalOp::Or,
                    seq![x, ExprView::Logical(LogicalOp::And, seq![y, z])],
                ),
                none,
            )
            &&& or_read(a + and + b + or + c) == ExprRead::Expr(
                ExprView::Logical(
                    LogicalOp::Or,
                    seq![ExprView::Logical(LogicalOp::And, seq![x, y]), z],
                ),
                none,
            )
            &&& is_operand(not + a, ExprView::Not(Box::new(x)))
        }),
{
    let and = seq![TokenView::Logical(LogicalOp::And)];
    let or = seq![TokenView::Logical(LogicalOp::Or)];
    let not = seq![TokenView::Not];
    let none = Seq::<TokenView>::empty();
    lemma_alone(a, x);
    lemma_alone(b, y);
    lemma_alone(c, z);

    let both = ExprView::Logical(LogicalOp::And, seq![x, y]);
    lemma_two_arms(a, b, x, y, none);
    assert(a + and + b + none =~= a + and + b);
    assert(or_arms(none, seq![both]) == ExprRead::Expr(both, none));

    // One operand, then `OR`.
    let tail = or + b;
    lemma_first_of_or(a, x, tail);
    assert(a + or + b =~= a + tail);
    assert(tail[0] == or[0]);
    assert(tail.skip(1) =~= b);
    assert(seq![x].push(y) =~= seq![x, y]);
    let either = ExprView::Logical(LogicalOp::Or, seq![x, y]);
    assert(or_arms(none, seq![x, y]) == ExprRead::Expr(either, none));
    assert(or_arms(tail, seq![x]) == ExprRead::Expr(either, none));

    let pair = b + and + c;
    let later = ExprView::Logical(LogicalOp::And, seq![y, z]);
    lemma_two_arms(b, c, y, z, none);
    assert(pair + none =~= pair);
    let long = or + pair;
    lemma_first_of_or(a, x, long);
    assert(a + or + pair =~= a + long);
    assert(long[0] == or[0]);
    assert(long.skip(1) =~= pair);
    assert(seq![x].push(later) =~= seq![x, later]);
    assert(or_arms(none, seq![x, later]) == ExprRead::Expr(
        ExprView::Logical(LogicalOp::Or, seq![x, later]),
        none,
    ));
    assert(or_arms(long, seq![x]) == ExprRead::Expr(
        ExprView::Logical(LogicalOp::Or, seq![x, later]),
        none,
    ));

    let last = or + c;
    assert(last[0] == or[0]);
    lemma_two_arms(a, b, x, y, last);
    assert(a + and + b + or + c =~= a + and + b + last);
    assert(last.skip(1) =~= c);
    assert(seq![both].push(z) =~= seq![both, z]);
    assert(or_arms(none, seq![both, z]) == ExprRead::Expr(
        ExprView::Logical(LogicalOp::Or, seq![both, z]),
        none,
    ));
    assert(or_arms(last, seq![both]) == ExprRead::Expr(
        ExprView::Logical(LogicalOp::Or, seq![both, z]),
        none,
    ));

    let negated = not + a;
    assert(negated[0] is Not);
    assert(negated.skip(1) =~= a);
}

proof fn lemma_first_of_or(a: Seq<TokenView>, x: ExprView, tail: Seq<TokenView>)
    requires
        is_operand(a, x),
        tail.len() > 0,
        tail[0] == TokenView::Logical(LogicalOp::Or),
    ensures
        and_read(a + tail) == ExprRead::Expr(x, tail),
{
    lemma_operand(a, x, tail);
    assert(seq![x][0] == x);
    assert(and_arms(tail, seq![x]) == ExprRead::Expr(x, tail));
}

/// What stands in parentheses is one operand, whatever it is.
pub proof fn law_parentheses_group(t: Seq<TokenView>, expr: ExprView)
    requires
        or_read(t) == ExprRead::Expr(expr, Seq::<TokenView>::empty()),
    ensures
        is_operand(seq![TokenView::LParen] + t + seq![TokenView::RParen], expr),
{
    let none = Seq::<TokenView>::empty();
    let close = seq![TokenView::RParen];
    let whole = seq![TokenView::LParen] + t + close;
    assert(whole[0] is LParen);
    assert(whole.skip(1) =~= t + close);
    lemma_or_then_close(t, expr);
    assert(close[0] is RParen);
    assert(close.skip(1) =~= none);
    assert(primary_read(whole) == ExprRead::Expr(expr, none));
}

proof fn lemma_or_then_close(t: Seq<TokenView>, expr: ExprView)
    requires
        or_read(t) == ExprRead::Expr(expr, Seq::<TokenView>::empty()),
    ensures
        or_read(t + seq![TokenView::RParen]) == ExprRead::Expr(expr, seq![TokenView::RParen]),
{
    let close = seq![TokenView::RParen];
    let none = Seq::<TokenView>::empty();
    match and_read(t) {
        ExprRead::Fault(_) => {},
        ExprRead::Expr(first, rest) => {
            lemma_and_then(t, close);
            lemma_or_arms_then(rest, seq![first], close);
            assert(none + close =~= close);
        },
    }
}

proof fn lemma_and_arms_then(t: Seq<TokenView>, arms: Seq<ExprView>, more: Seq<TokenView>)
    requires
        more.len() > 0,
        more[0] is RParen,
    ensures
        leaves(and_arms(t, arms), and_arms(t + more, arms), more),
    decreases t.len(),
{
    let whole = t + more;
    if t.len() == 0 {
        assert(whole =~= more);
    } else {
        assert(whole[0] == t[0]);
        if t[0] == TokenView::Logical(LogicalOp::And) {
            assert(whole.skip(1) =~= t.skip(1) + more);
            lemma_not_leaves(t.skip(1), more);
            match not_read(t.skip(1)) {
                ExprRead::Fault(_) => {},
                ExprRead::Expr(next, rest) => if rest.len() < t.len() {
                    lemma_and_arms_then(rest, arms.push(next), more);
                },
            }
        }
    }
}

proof fn lemma_and_then(t: Seq<TokenView>, more: Seq<TokenView>)
    requires
        more.len() > 0,
        more[0] is RParen,
    ensures
        leaves(and_read(t), and_read(t + more), more),
{
    lemma_not_leaves(t, more);
    match not_read(t) {
        ExprRead::Fault(_) => {},
        ExprRead::Expr(first, rest) => if rest.len() <= t.len() {
            lemma_and_arms_then(rest, seq![first], more);
        },
    }
}

proof fn lemma_or_arms_then(t: Seq<TokenView>, arms: Seq<ExprView>, more: Seq<TokenView>)
    requires
        more.len() > 0,
        more[0] is RParen,
    ensures
        leaves(or_arms(t, arms), or_arms(t + more, arms), more),
    decreases t.len(),
{
    let whole = t + more;
    if t.len() == 0 {
        assert(whole =~= more);
    } else {
        assert(whole[0] == t[0]);
        if t[0] == TokenView::Logical(LogicalOp::Or) {
            assert(whole.skip(1) =~= t.skip(1) + more);
            lemma_and_then(t.skip(1), more);
            match and_read(t.skip(1)) {
                ExprRead::Fault(_) => {},
                ExprRead::Expr(next, rest) => if rest.len() < t.len() {
                    lemma_or_arms_then(rest, arms.push(next), more);
                },
            }
        }
    }
}

/// A filter that names no field path is refused for that name, and one that is no
/// expression for its own text.
pub proof fn law_refused_filters_are_named(error: QueryError, word: Seq<char>, text: Seq<char>)
    ensures
        filter_refusal(error, FilterFault::Path(word), text) ==> error is UnknownFieldPath
            && error->UnknownFieldPath_path@ == trimmed(word),
        filter_refusal(error, FilterFault::Malformed, text) ==> error
            is UnparsableFilterExpression && error->expr@ == text,
{
    if filter_refusal(error, FilterFault::Path(word), text) {
        law_refused_paths_are_named(word, error);
    }
}

/// A comparison with a name that is no field path is refused for that name. A
/// name alone, a comparison without a value and an empty filter are no
/// expressions.
pub proof fn law_what_is_no_filter(field: Seq<char>, op: CompareOp, value: ValueView)
    ensures
        path_of(field) is None ==> or_read(
            seq![TokenView::Ident(field), TokenView::Op(op), TokenView::Literal(value)],
        ) == ExprRead::Fault(FilterFault::Path(field)),
        or_read(seq![TokenView::Ident(field)]) == ExprRead::Fault(FilterFault::Malformed),
        path_of(field) is Some ==> or_read(seq![TokenView::Ident(field), TokenView::Op(op)])
            == ExprRead::Fault(FilterFault::Malformed),
        or_read(seq![TokenView::Literal(value)]) == ExprRead::Fault(FilterFault::Malformed),
        or_read(Seq::empty()) == ExprRead::Fault(FilterFault::Malformed),
{
    let full = seq![TokenView::Ident(field), TokenView::Op(op), TokenView::Literal(value)];
    let name = seq![TokenView::Ident(field)];
    let short = seq![TokenView::Ident(field), TokenView::Op(op)];
    let lone = seq![TokenView::Literal(value)];
    let none = Seq::<TokenView>::empty();
    assert(full[0] == TokenView::Ident(field) && full[1] == TokenView::Op(op));
    assert(full.skip(1)[0] == TokenView::Op(op));
    assert(name[0] == TokenView::Ident(field));
    assert(name.skip(1).len() == 0);
    assert(short[0] == TokenView::Ident(field) && short[1] == TokenView::Op(op));
    assert(short.skip(1)[0] == TokenView::Op(op) && short.skip(1).len() == 1);
    assert(lone[0] == TokenView::Literal(value));
    assert(primary_read(full) == comparison_read(field, full.skip(1)));
    assert(primary_read(name) == comparison_read(field, name.skip(1)));
    assert(primary_read(short) == comparison_read(field, short.skip(1)));
    assert(not_read(full) == primary_read(full));
    assert(not_read(name) == primary_read(name));
    assert(not_read(short) == primary_read(short));
    assert(not_read(lone) == primary_read(lone));
    assert(not_read(none) == primary_read(none));
    assert(and_read(full) is Fault || path_of(field) is Some);
    assert(and_read(name) is Fault && and_read(lone) is Fault && and_read(none) is Fault);
    assert(and_read(short) is Fault || path_of(field) is None);
}

} // verus!
