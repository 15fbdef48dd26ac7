//! Laws on filter texts that are put together from others.

use vstd::prelude::*;
use vstd::string::*;

use super::filter::{
    and_arms, and_read, call_read, comparison_read, expr_holds, filter_read, law_logical_arms,
    not_read, or_arms, or_read, primary_read, ExprRead, ExprView, FilterRead,
};
use super::operators::LogicalOp;
use super::outcome::kept_rows;
use super::record::RecordView;
use super::token::{
    is_gap, is_word_part, law_word_is_one_token, lemma_token_within, lemma_word_within,
    string_body, token_read, tokens_read, word_len, word_token, TokenView,
};
use crate::number::NumberView;
use crate::text::ascii_lowered;

verus! {

/// A string that is closed does not reach into what follows.
proof fn lemma_string_before(s: Seq<char>, more: Seq<char>)
    requires
        string_body(s) is Some,
    ensures
        string_body(s + more) == string_body(s),
    decreases s.len(),
{
    let whole = s + more;
    assert(whole[0] == s[0]);
    if s[0] == '"' {
    } else if s[0] == '\\' {
        assert(whole[1] == s[1]);
        assert(whole.skip(2) =~= s.skip(2) + more);
        lemma_string_before(s.skip(2), more);
    } else {
        assert(whole.skip(1) =~= s.skip(1) + more);
        lemma_string_before(s.skip(1), more);
    }
}

/// A word ends where it did if a parenthesis follows.
proof fn lemma_word_before(s: Seq<char>, more: Seq<char>)
    requires
        more.len() > 0,
        !is_word_part(more[0]),
    ensures
        word_len(s + more) == word_len(s),
    decreases s.len(),
{
    let whole = s + more;
    if s.len() == 0 {
        assert(whole =~= more);
    } else {
        assert(whole[0] == s[0]);
        if is_word_part(s[0]) {
            assert(whole.drop_first() =~= s.drop_first() + more);
            lemma_word_before(s.drop_first(), more);
        }
    }
}

/// A token does not reach into a parenthesis that follows.
proof fn lemma_token_before(
    s: Seq<char>,
    more: Seq<char>,
    numbers: Seq<(Seq<char>, NumberView)>,
)
    requires
        token_read(s, numbers) is Some,
        more.len() > 0,
        more[0] == ')',
    ensures
        token_read(s + more, numbers) == token_read(s, numbers),
{
    let whole = s + more;
    lemma_token_within(s, numbers);
    assert(whole[0] == s[0]);
    if s.len() > 1 {
        assert(whole[1] == s[1]);
    } else {
        assert(whole[1] == ')');
    }
    if s[0] == '"' {
        lemma_string_before(s.skip(1), more);
        assert(whole.skip(1) =~= s.skip(1) + more);
    } else {
        lemma_word_before(s, more);
        lemma_word_within(s);
        assert(whole.take(word_len(s) as int) =~= s.take(word_len(s) as int));
    }
}

/// The tokens of a text come first where a parenthesis follows it.
proof fn lemma_tokens_before(
    s: Seq<char>,
    more: Seq<char>,
    numbers: Seq<(Seq<char>, NumberView)>,
)
    requires
        tokens_read(s, numbers) is Some,
        tokens_read(more, numbers) is Some,
        more.len() > 0,
        more[0] == ')',
    ensures
        tokens_read(s + more, numbers) == Some(
            tokens_read(s, numbers).unwrap() + tokens_read(more, numbers).unwrap(),
        ),
    decreases s.len(),
{
    let whole = s + more;
    let last = tokens_read(more, numbers).unwrap();
    if s.len() == 0 {
        assert(whole =~= more);
        assert(Seq::<TokenView>::empty() + last =~= last);
    } else {
        assert(whole[0] == s[0]);
        if is_gap(s[0]) {
            assert(whole.drop_first() =~= s.drop_first() + more);
            lemma_tokens_before(s.drop_first(), more, numbers);
        } else {
            lemma_token_within(s, numbers);
            lemma_token_before(s, more, numbers);
            let (token, len) = token_read(s, numbers).unwrap();
            let rest = s.skip(len as int);
            assert(whole.skip(len as int) =~= rest + more);
            lemma_tokens_before(rest, more, numbers);
            let found = tokens_read(rest, numbers).unwrap();
            assert(seq![token] + (found + last) =~= (seq![token] + found) + last);
        }
    }
}

/// A parenthesis at the front of a text is its first token.
proof fn lemma_paren_first(c: char, rest: Seq<char>, numbers: Seq<(Seq<char>, NumberView)>)
    requires
        c == '(' || c == ')',
        tokens_read(rest, numbers) is Some,
    ensures
        tokens_read(seq![c] + rest, numbers) == Some(
            seq![
                if c == '(' {
                    TokenView::LParen
                } else {
                    TokenView::RParen
                },
            ] + tokens_read(rest, numbers).unwrap(),
        ),
{
    let s = seq![c] + rest;
    assert(s[0] == c);
    assert(s.skip(1) =~= rest);
}

/// A space at the front of a text does not count.
proof fn lemma_space_first(rest: Seq<char>, numbers: Seq<(Seq<char>, NumberView)>)
    ensures
        tokens_read(seq![' '] + rest, numbers) == tokens_read(rest, numbers),
{
    let s = seq![' '] + rest;
    assert(s[0] == ' ');
    assert(s.drop_first() =~= rest);
}

/// A keyword before a space is the first token.
proof fn lemma_keyword_first(
    word: Seq<char>,
    token: TokenView,
    rest: Seq<char>,
    numbers: Seq<(Seq<char>, NumberView)>,
)
    requires
        word.len() > 0,
        forall|i: int| 0 <= i < word.len() ==> is_word_part(#[trigger] word[i]),
        !is_gap(word[0]),
        word_token(word, numbers) == token,
        tokens_read(rest, numbers) is Some,
    ensures
        tokens_read(word + (seq![' '] + rest), numbers) == Some(
            seq![token] + tokens_read(rest, numbers).unwrap(),
        ),
{
    let tail = seq![' '] + rest;
    let s = word + tail;
    assert(tail[0] == ' ');
    law_word_is_one_token(word, tail, numbers);
    assert(s[0] == word[0]);
    assert(s.skip(word.len() as int) =~= tail);
    lemma_space_first(rest, numbers);
}

/// The expression that is read does not depend on what follows behind a closing
/// parenthesis.
spec fn reads_before(before: ExprRead, whole: ExprRead, more: Seq<TokenView>) -> bool {
    match before {
        ExprRead::Fault(_) => true,
        ExprRead::Expr(expr, rest) => whole == ExprRead::Expr(expr, rest + more),
    }
}

proof fn lemma_primary_before(t: Seq<TokenView>, more: Seq<TokenView>)
    requires
        more.len() > 0,
        more[0] is RParen,
    ensures
        reads_before(primary_read(t), primary_read(t + more), more),
    decreases t.len(), 0nat,
{
    let whole = t + more;
    if t.len() > 0 {
        let next = t.skip(1);
        assert(whole[0] == t[0]);
        assert(whole.skip(1) =~= next + more);
        match t[0] {
            TokenView::LParen => {
                lemma_or_before(next, more);
                match or_read(next) {
                    ExprRead::Fault(_) => {},
                    ExprRead::Expr(inner, rest) => if rest.len() > 0 && rest[0] is RParen {
                        assert((rest + more)[0] == rest[0]);
                        assert((rest + more).skip(1) =~= rest.skip(1) + more);
                    },
                }
            },
            TokenView::Ident(name) => {
                if t.len() > 1 {
                    assert(whole[1] == t[1]);
                    if t[1] is LParen {
                        lemma_call_before(name, next, more);
                    } else {
                        lemma_comparison_before(name, next, more);
                    }
                }
            },
            _ => {},
        }
    }
}

proof fn lemma_comparison_before(field: Seq<char>, t: Seq<TokenView>, more: Seq<TokenView>)
    ensures
        reads_before(comparison_read(field, t), comparison_read(field, t + more), more),
{
    let whole = t + more;
    if t.len() > 1 {
        assert(whole[0] == t[0] && whole[1] == t[1]);
        assert(whole.skip(2) =~= t.skip(2) + more);
    }
}

proof fn lemma_call_before(name: Seq<char>, t: Seq<TokenView>, more: Seq<TokenView>)
    ensures
        reads_before(call_read(name, t), call_read(name, t + more), more),
{
    let whole = t + more;
    if t.len() > 4 {
        assert(whole[1] == t[1] && whole[2] == t[2] && whole[3] == t[3] && whole[4] == t[4]);
        assert(whole.skip(5) =~= t.skip(5) + more);
    }
}

proof fn lemma_not_before(t: Seq<TokenView>, more: Seq<TokenView>)
    requires
        more.len() > 0,
        more[0] is RParen,
    ensures
        reads_before(not_read(t), not_read(t + more), more),
    decreases t.len(), 1nat,
{
    let whole = t + more;
    if t.len() > 0 {
        assert(whole[0] == t[0]);
        if t[0] is Not {
            assert(whole.skip(1) =~= t.skip(1) + more);
            lemma_not_before(t.skip(1), more);
        } else {
            lemma_primary_before(t, more);
        }
    } else {
        lemma_primary_before(t, more);
    }
}

proof fn lemma_and_arms_before(t: Seq<TokenView>, arms: Seq<ExprView>, more: Seq<TokenView>)
    requires
        more.len() > 0,
        more[0] is RParen,
    ensures
        reads_before(and_arms(t, arms), and_arms(t + more, arms), more),
    decreases t.len(), 2nat,
{
    let whole = t + more;
    if t.len() == 0 {
        assert(whole =~= more);
    } else {
        assert(whole[0] == t[0]);
        if t[0] == TokenView::Logical(LogicalOp::And) {
            assert(whole.skip(1) =~= t.skip(1) + more);
            lemma_not_before(t.skip(1), more);
            match not_read(t.skip(1)) {
                ExprRead::Fault(_) => {},
                ExprRead::Expr(next, rest) => if rest.len() < t.len() {
                    lemma_and_arms_before(rest, arms.push(next), more);
                },
            }
        }
    }
}

proof fn lemma_and_before(t: Seq<TokenView>, more: Seq<TokenView>)
    requires
        more.len() > 0,
        more[0] is RParen,
    ensures
        reads_before(and_read(t), and_read(t + more), more),
    decreases t.len(), 3nat,
{
    lemma_not_before(t, more);
    match not_read(t) {
        ExprRead::Fault(_) => {},
        ExprRead::Expr(first, rest) => if rest.len() <= t.len() {
            lemma_and_arms_before(rest, seq![first], more);
        },
    }
}

proof fn lemma_or_arms_before(t: Seq<TokenView>, arms: Seq<ExprView>, more: Seq<TokenView>)
    requires
        more.len() > 0,
        more[0] is RParen,
    ensures
        reads_before(or_arms(t, arms), or_arms(t + more, arms), more),
    decreases t.len(), 4nat,
{
    let whole = t + more;
    if t.len() == 0 {
        assert(whole =~= more);
    } else {
        assert(whole[0] == t[0]);
        if t[0] == TokenView::Logical(LogicalOp::Or) {
            assert(whole.skip(1) =~= t.skip(1) + more);
            lemma_and_before(t.skip(1), more);
            match and_read(t.skip(1)) {
                ExprRead::Fault(_) => {},
                ExprRead::Expr(next, rest) => if rest.len() < t.len() {
                    lemma_or_arms_before(rest, arms.push(next), more);
                },
            }
        }
    }
}

proof fn lemma_or_before(t: Seq<TokenView>, more: Seq<TokenView>)
    requires
        more.len() > 0,
        more[0] is RParen,
    ensures
        reads_before(or_read(t), or_read(t + more), more),
    decreases t.len(), 5nat,
{
    lemma_and_before(t, more);
    match and_read(t) {
        ExprRead::Fault(_) => {},
        ExprRead::Expr(first, rest) => if rest.len() <= t.len() {
            lemma_or_arms_before(rest, seq![first], more);
        },
    }
}

/// An expression in parentheses is a primary.
proof fn lemma_paren_read(t: Seq<TokenView>, expr: ExprView, more: Seq<TokenView>)
    requires
        or_read(t) == ExprRead::Expr(expr, Seq::<TokenView>::empty()),
    ensures
        not_read(seq![TokenView::LParen] + t + seq![TokenView::RParen] + more) == ExprRead::Expr(
            expr,
            more,
        ),
{
    let tail = seq![TokenView::RParen] + more;
    let whole = seq![TokenView::LParen] + t + seq![TokenView::RParen] + more;
    assert(whole[0] == TokenView::LParen);
    assert(whole.skip(1) =~= t + tail);
    assert(tail[0] is RParen);
    lemma_or_before(t, tail);
    assert(Seq::<TokenView>::empty() + tail =~= tail);
    assert(tail.skip(1) =~= more);
    assert(primary_read(whole) == ExprRead::Expr(expr, more));
}

/// Two filter texts as arms of `AND`.
pub open spec fn and_text(first: Seq<char>, second: Seq<char>) -> Seq<char> {
    "("@ + first + ") AND ("@ + second + ")"@
}

/// A filter text negated.
pub open spec fn not_text(text: Seq<char>) -> Seq<char> {
    "NOT ("@ + text + ")"@
}

/// A text in parentheses has the tokens of the text in parentheses.
proof fn lemma_paren_tokens(
    text: Seq<char>,
    more: Seq<char>,
    numbers: Seq<(Seq<char>, NumberView)>,
)
    requires
        tokens_read(text, numbers) is Some,
        tokens_read(more, numbers) is Some,
    ensures
        tokens_read(seq!['('] + text + seq![')'] + more, numbers) == Some(
            seq![TokenView::LParen] + tokens_read(text, numbers).unwrap() + seq![TokenView::RParen]
                + tokens_read(more, numbers).unwrap(),
        ),
{
    let closing = seq![')'] + more;
    lemma_paren_first(')', more, numbers);
    assert(closing[0] == ')');
    lemma_tokens_before(text, closing, numbers);
    lemma_paren_first('(', text + closing, numbers);
    assert(seq!['('] + text + seq![')'] + more =~= seq!['('] + (text + closing));
    let t = tokens_read(text, numbers).unwrap();
    let m = tokens_read(more, numbers).unwrap();
    assert(seq![TokenView::LParen] + (t + (seq![TokenView::RParen] + m))
        =~= seq![TokenView::LParen] + t + seq![TokenView::RParen] + m);
}

/// Two filter texts in parentheses with `AND` between them read as the two
/// expressions under `AND`.
pub proof fn law_and_text_reads(
    first: Seq<char>,
    second: Seq<char>,
    numbers: Seq<(Seq<char>, NumberView)>,
)
    requires
        filter_read(first, numbers) is Expr,
        filter_read(second, numbers) is Expr,
    ensures
        filter_read(and_text(first, second), numbers) == FilterRead::Expr(
            ExprView::Logical(
                LogicalOp::And,
                seq![filter_read(first, numbers)->Expr_0, filter_read(second, numbers)->Expr_0],
            ),
        ),
{
    let none = Seq::<char>::empty();
    let no_tokens = Seq::<TokenView>::empty();
    let x = filter_read(first, numbers)->Expr_0;
    let y = filter_read(second, numbers)->Expr_0;
    let s = tokens_read(first, numbers).unwrap();
    let t = tokens_read(second, numbers).unwrap();
    assert(or_read(s) == ExprRead::Expr(x, no_tokens)) by {
        assert(or_read(s)->Expr_1 =~= no_tokens);
    }
    assert(or_read(t) == ExprRead::Expr(y, no_tokens)) by {
        assert(or_read(t)->Expr_1 =~= no_tokens);
    }
    let open = seq![TokenView::LParen];
    let close = seq![TokenView::RParen];
    let and = TokenView::Logical(LogicalOp::And);

    // The tokens.
    lemma_paren_tokens(second, none, numbers);
    let last = seq!['('] + second + seq![')'] + none;
    let last_tokens = open + t + close + no_tokens;
    let word = seq!['A', 'N', 'D'];
    reveal_strlit("and");
    assert(ascii_lowered(word) =~= ascii_lowered("and"@));
    lemma_keyword_first(word, and, last, numbers);
    let middle = seq![' '] + (word + (seq![' '] + last));
    lemma_space_first(word + (seq![' '] + last), numbers);
    lemma_paren_tokens(first, middle, numbers);
    reveal_strlit("(");
    reveal_strlit(") AND (");
    reveal_strlit(")");
    assert(and_text(first, second) =~= seq!['('] + first + seq![')'] + middle);
    let rest = seq![and] + last_tokens;
    let tokens = open + s + close + rest;
    assert(tokens_read(and_text(first, second), numbers) == Some(tokens));

    // The expression.
    lemma_paren_read(s, x, rest);
    lemma_paren_read(t, y, no_tokens);
    assert(rest[0] == and);
    assert(rest.skip(1) =~= last_tokens);
    let arms = seq![x].push(y);
    assert(arms =~= seq![x, y]);
    let both = ExprView::Logical(LogicalOp::And, arms);
    assert(and_arms(no_tokens, arms) == ExprRead::Expr(both, no_tokens));
    assert(and_arms(rest, seq![x]) == ExprRead::Expr(both, no_tokens));
    assert(and_read(tokens) == ExprRead::Expr(both, no_tokens));
    assert(or_arms(no_tokens, seq![both]) == ExprRead::Expr(both, no_tokens));
    assert(or_read(tokens) == ExprRead::Expr(both, no_tokens));
}

/// A filter text in parentheses behind `NOT` reads as the negated expression.
pub proof fn law_not_text_reads(text: Seq<char>, numbers: Seq<(Seq<char>, NumberView)>)
    requires
        filter_read(text, numbers) is Expr,
    ensures
        filter_read(not_text(text), numbers) == FilterRead::Expr(
            ExprView::Not(Box::new(filter_read(text, numbers)->Expr_0)),
        ),
{
    let none = Seq::<char>::empty();
    let no_tokens = Seq::<TokenView>::empty();
    let x = filter_read(text, numbers)->Expr_0;
    let t = tokens_read(text, numbers).unwrap();
    assert(or_read(t) == ExprRead::Expr(x, no_tokens)) by {
        assert(or_read(t)->Expr_1 =~= no_tokens);
    }
    lemma_paren_tokens(text, none, numbers);
    let last = seq!['('] + text + seq![')'] + none;
    let last_tokens = seq![TokenView::LParen] + t + seq![TokenView::RParen] + no_tokens;
    let word = seq!['N', 'O', 'T'];
    reveal_strlit("and");
    reveal_strlit("or");
    reveal_strlit("not");
    assert(ascii_lowered(word) =~= ascii_lowered("not"@));
    assert(ascii_lowered(word)[0] == 'n');
    assert(ascii_lowered("and"@)[0] == 'a');
    assert(ascii_lowered("or"@).len() == 2);
    lemma_keyword_first(word, TokenView::Not, last, numbers);
    reveal_strlit("NOT (");
    reveal_strlit(")");
    assert(not_text(text) =~= word + (seq![' '] + last));
    let tokens = seq![TokenView::Not] + last_tokens;
    assert(tokens_read(not_text(text), numbers) == Some(tokens));

    lemma_paren_read(t, x, no_tokens);
    assert(tokens[0] is Not);
    assert(tokens.skip(1) =~= last_tokens);
    let negated = ExprView::Not(Box::new(x));
    assert(not_read(tokens) == ExprRead::Expr(negated, no_tokens));
    assert(and_arms(no_tokens, seq![negated]) == ExprRead::Expr(negated, no_tokens));
    assert(and_read(tokens) == ExprRead::Expr(negated, no_tokens));
    assert(or_arms(no_tokens, seq![negated]) == ExprRead::Expr(negated, no_tokens));
    assert(or_read(tokens) == ExprRead::Expr(negated, no_tokens));
}

proof fn lemma_kept_twice(rows: Seq<RecordView>, first: ExprView, second: ExprView)
    ensures
        kept_rows(kept_rows(rows, first), second) == kept_rows(
            rows,
            ExprView::Logical(LogicalOp::And, seq![first, second]),
        ),
    decreases rows.len(),
{
    if rows.len() > 0 {
        let row = rows.last();
        let before = kept_rows(rows.drop_last(), first);
        let arms = seq![first, second];
        lemma_kept_twice(rows.drop_last(), first, second);
        law_logical_arms(arms, row);
        let both = ExprView::Logical(LogicalOp::And, arms);
        assert(expr_holds(both, row) == (expr_holds(first, row) && expr_holds(second, row))) by {
            assert(arms[0] == first && arms[1] == second);
        }
        if expr_holds(first, row) {
            assert(before.push(row).drop_last() =~= before);
        }
    }
}

/// Filtering by one text and then by another is filtering by both under `AND`.
pub proof fn law_two_filters_are_one(
    rows: Seq<RecordView>,
    first: Seq<char>,
    second: Seq<char>,
    numbers: Seq<(Seq<char>, NumberView)>,
)
    requires
        filter_read(first, numbers) is Expr,
        filter_read(second, numbers) is Expr,
    ensures
        filter_read(and_text(first, second), numbers) is Expr,
        kept_rows(
            kept_rows(rows, filter_read(first, numbers)->Expr_0),
            filter_read(second, numbers)->Expr_0,
        ) == kept_rows(rows, filter_read(and_text(first, second), numbers)->Expr_0),
{
    law_and_text_reads(first, second, numbers);
    lemma_kept_twice(
        rows,
        filter_read(first, numbers)->Expr_0,
        filter_read(second, numbers)->Expr_0,
    );
}

proof fn lemma_kept_apart(rows: Seq<RecordView>, expr: ExprView)
    ensures
        kept_rows(rows, expr).to_multiset().add(
            kept_rows(rows, ExprView::Not(Box::new(expr))).to_multiset(),
        ) == rows.to_multiset(),
    decreases rows.len(),
{
    broadcast use vstd::seq_lib::group_to_multiset_ensures;

    let negated = ExprView::Not(Box::new(expr));
    let kept = kept_rows(rows, expr);
    let others = kept_rows(rows, negated);
    if rows.len() == 0 {
        assert(kept.to_multiset().add(others.to_multiset()) =~= rows.to_multiset());
    } else {
        let front = rows.drop_last();
        let row = rows.last();
        lemma_kept_apart(front, expr);
        assert(rows =~= front.push(row));
        assert(expr_holds(negated, row) == !expr_holds(expr, row));
        assert(kept.to_multiset().add(others.to_multiset()) =~= rows.to_multiset());
    }
}

/// A filter and its negation share the rows out: together they keep every row
/// exactly once, and a row that the negation keeps does not satisfy the filter.
pub proof fn law_negation_keeps_the_other_rows(
    rows: Seq<RecordView>,
    text: Seq<char>,
    numbers: Seq<(Seq<char>, NumberView)>,
)
    requires
        filter_read(text, numbers) is Expr,
    ensures
        filter_read(not_text(text), numbers) is Expr,
        ({
            let expr = filter_read(text, numbers)->Expr_0;
            let negated = filter_read(not_text(text), numbers)->Expr_0;
            &&& kept_rows(rows, expr).to_multiset().add(kept_rows(rows, negated).to_multiset())
                == rows.to_multiset()
            &&& forall|row: RecordView| #[trigger]
                expr_holds(negated, row) == !expr_holds(expr, row)
        }),
{
    law_not_text_reads(text, numbers);
    lemma_kept_apart(rows, filter_read(text, numbers)->Expr_0);
}

} // verus!
