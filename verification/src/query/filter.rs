//! Filter expressions.
//!
//! ```text
//! or      = and { OR and }
//! and     = not { AND not }
//! not     = NOT not | primary
//! primary = "(" or ")"
//!         | name "(" field "," literal ")"
//!         | field operator literal
//! ```

use vstd::prelude::*;

use super::error::QueryError;
use super::field::{path_of, path_refusal, FieldPath, PathView};
use super::operators::{op_holds, CompareOp, LogicalOp};
use super::record::{resolved, IndexRecord, RecordView};
use super::sort::{fields_equal, same_value};
use super::token::{token_views, tokenize_filter_expr, tokens_read, FilterToken, TokenView};
use crate::note::structure::{is_nested_tag, Tag};
use crate::note::value::{
    lemma_value_views, value_text, value_views, FieldValue, ValueView,
};
use crate::number::{NumberView, NumberWords};
use crate::text::{ascii_lowered, begins_with, contains, has_text, same_ignoring_ascii_case};

verus! {

/// Contents of a [`FilterExpr`].
pub enum ExprView {
    /// `<field> <op> <value>`
    Comparison(PathView, CompareOp, ValueView),
    /// `contains(<field>, <value>)`
    Contains(PathView, ValueView),
    /// Two or more expressions under one logical operator.
    Logical(LogicalOp, Seq<ExprView>),
    /// A negated expression.
    Not(Box<ExprView>),
}

/// A parsed filter expression.
#[derive(Debug)]
pub enum FilterExpr {
    /// `<field> <op> <value>`
    Comparison(FieldPath, CompareOp, FieldValue),
    /// `contains(<field>, <value>)`
    Contains(FieldPath, FieldValue),
    /// Two or more expressions under one logical operator.
    Logical(LogicalOp, Vec<FilterExpr>),
    /// A negated expression.
    Not(Box<FilterExpr>),
}

/// The contents of each expression.
pub open spec fn expr_views(exprs: Seq<FilterExpr>) -> Seq<ExprView>
    decreases exprs,
{
    if exprs.len() == 0 {
        Seq::empty()
    } else {
        expr_views(exprs.drop_last()).push(exprs.last().contents())
    }
}

impl FilterExpr {
    /// The contents of this expression.
    pub open spec fn contents(self) -> ExprView
        decreases self,
    {
        match self {
            FilterExpr::Comparison(field, op, value) => ExprView::Comparison(
                field@,
                op,
                value.contents(),
            ),
            FilterExpr::Contains(field, value) => ExprView::Contains(field@, value.contents()),
            FilterExpr::Logical(op, exprs) => ExprView::Logical(op, expr_views(exprs@)),
            FilterExpr::Not(expr) => ExprView::Not(Box::new(expr.contents())),
        }
    }
}

/// A list item equals `target`, or is a tag nested under it.
pub open spec fn item_matches(item: ValueView, target: ValueView) -> bool {
    same_value(item, target) || match (value_text(item), value_text(target)) {
        (Some(tag), Some(parent)) => is_nested_tag(tag, parent),
        _ => false,
    }
}

/// `value` contains `target`: a list has an item that matches it, a text holds
/// its text.
pub open spec fn value_contains(value: ValueView, target: ValueView) -> bool {
    match value {
        ValueView::List(items) => exists|i: int|
            0 <= i < items.len() && item_matches(#[trigger] items[i], target),
        _ => match (value_text(value), value_text(target)) {
            (Some(text), Some(part)) => has_text(text, part),
            _ => false,
        },
    }
}

/// A row satisfies an expression.
pub open spec fn expr_holds(expr: ExprView, record: RecordView) -> bool
    decreases expr,
{
    match expr {
        ExprView::Comparison(field, op, value) => op_holds(op, resolved(record, field), value),
        ExprView::Contains(field, value) => value_contains(resolved(record, field), value),
        ExprView::Logical(LogicalOp::And, exprs) => all_hold(exprs, record),
        ExprView::Logical(LogicalOp::Or, exprs) => any_holds(exprs, record),
        ExprView::Not(inner) => !expr_holds(*inner, record),
    }
}

/// A row satisfies every expression.
pub open spec fn all_hold(exprs: Seq<ExprView>, record: RecordView) -> bool
    decreases exprs,
{
    exprs.len() == 0 || (expr_holds(exprs.last(), record) && all_hold(exprs.drop_last(), record))
}

/// A row satisfies one of the expressions.
pub open spec fn any_holds(exprs: Seq<ExprView>, record: RecordView) -> bool
    decreases exprs,
{
    exprs.len() > 0 && (expr_holds(exprs.last(), record) || any_holds(exprs.drop_last(), record))
}

/// Why tokens are no expression.
pub enum FilterFault {
    /// They do not follow the grammar.
    Malformed,
    /// This word is no field path.
    Path(Seq<char>),
}

/// What the front of a series of tokens reads as.
pub enum ExprRead {
    /// No expression.
    Fault(FilterFault),
    /// An expression, and the tokens behind it.
    Expr(ExprView, Seq<TokenView>),
}

/// `arms` under `op`; a single one stands for itself.
pub open spec fn joined_arms(op: LogicalOp, arms: Seq<ExprView>) -> ExprView {
    if arms.len() == 1 {
        arms[0]
    } else {
        ExprView::Logical(op, arms)
    }
}

/// Reads a comparison behind its field.
pub open spec fn comparison_read(field: Seq<char>, t: Seq<TokenView>) -> ExprRead {
    if t.len() == 0 || !(t[0] is Op) {
        ExprRead::Fault(FilterFault::Malformed)
    } else {
        match path_of(field) {
            None => ExprRead::Fault(FilterFault::Path(field)),
            Some(path) => if t.len() > 1 && t[1] is Literal {
                ExprRead::Expr(
                    ExprView::Comparison(path, t[0]->Op_0, t[1]->Literal_0),
                    t.skip(2),
                )
            } else {
                ExprRead::Fault(FilterFault::Malformed)
            },
        }
    }
}

/// Reads a function call behind its name, from the opening parenthesis on.
pub open spec fn call_read(name: Seq<char>, t: Seq<TokenView>) -> ExprRead {
    if t.len() < 2 || !(t[1] is Ident) {
        ExprRead::Fault(FilterFault::Malformed)
    } else {
        match path_of(t[1]->Ident_0) {
            None => ExprRead::Fault(FilterFault::Path(t[1]->Ident_0)),
            Some(path) => if t.len() > 4 && t[2] is Comma && t[3] is Literal && t[4] is RParen
                && ascii_lowered(name) == ascii_lowered("contains"@) {
                ExprRead::Expr(ExprView::Contains(path, t[3]->Literal_0), t.skip(5))
            } else {
                ExprRead::Fault(FilterFault::Malformed)
            },
        }
    }
}

/// Reads the expressions joined by `OR` at the front of `t`.
pub open spec fn or_read(t: Seq<TokenView>) -> ExprRead
    decreases t.len(), 5nat,
{
    match and_read(t) {
        ExprRead::Fault(fault) => ExprRead::Fault(fault),
        ExprRead::Expr(first, rest) => if rest.len() <= t.len() {
            or_arms(rest, seq![first])
        } else {
            ExprRead::Fault(FilterFault::Malformed)
        },
    }
}

/// Reads on behind `arms` while `OR` follows.
pub open spec fn or_arms(t: Seq<TokenView>, arms: Seq<ExprView>) -> ExprRead
    decreases t.len(), 4nat,
{
    if t.len() > 0 && t[0] == TokenView::Logical(LogicalOp::Or) {
        match and_read(t.skip(1)) {
            ExprRead::Fault(fault) => ExprRead::Fault(fault),
            ExprRead::Expr(next, rest) => if rest.len() < t.len() {
                or_arms(rest, arms.push(next))
            } else {
                ExprRead::Fault(FilterFault::Malformed)
            },
        }
    } else {
        ExprRead::Expr(joined_arms(LogicalOp::Or, arms), t)
    }
}

/// Reads the expressions joined by `AND` at the front of `t`.
pub open spec fn and_read(t: Seq<TokenView>) -> ExprRead
    decreases t.len(), 3nat,
{
    match not_read(t) {
        ExprRead::Fault(fault) => ExprRead::Fault(fault),
        ExprRead::Expr(first, rest) => if rest.len() <= t.len() {
            and_arms(rest, seq![first])
        } else {
            ExprRead::Fault(FilterFault::Malformed)
        },
    }
}

/// Reads on behind `arms` while `AND` follows.
pub open spec fn and_arms(t: Seq<TokenView>, arms: Seq<ExprView>) -> ExprRead
    decreases t.len(), 2nat,
{
    if t.len() > 0 && t[0] == TokenView::Logical(LogicalOp::And) {
        match not_read(t.skip(1)) {
            ExprRead::Fault(fault) => ExprRead::Fault(fault),
            ExprRead::Expr(next, rest) => if rest.len() < t.len() {
                and_arms(rest, arms.push(next))
            } else {
                ExprRead::Fault(FilterFault::Malformed)
            },
        }
    } else {
        ExprRead::Expr(joined_arms(LogicalOp::And, arms), t)
    }
}

/// Reads an expression that may be negated at the front of `t`.
pub open spec fn not_read(t: Seq<TokenView>) -> ExprRead
    decreases t.len(), 1nat,
{
    if t.len() > 0 && t[0] is Not {
        match not_read(t.skip(1)) {
            ExprRead::Fault(fault) => ExprRead::Fault(fault),
            ExprRead::Expr(inner, rest) => ExprRead::Expr(ExprView::Not(Box::new(inner)), rest),
        }
    } else {
        primary_read(t)
    }
}

/// Reads a parenthesis, a function call or a comparison at the front of `t`.
pub open spec fn primary_read(t: Seq<TokenView>) -> ExprRead
    decreases t.len(), 0nat,
{
    if t.len() == 0 {
        ExprRead::Fault(FilterFault::Malformed)
    } else {
        match t[0] {
            TokenView::LParen => match or_read(t.skip(1)) {
                ExprRead::Fault(fault) => ExprRead::Fault(fault),
                ExprRead::Expr(inner, rest) => if rest.len() > 0 && rest[0] is RParen {
                    ExprRead::Expr(inner, rest.skip(1))
                } else {
                    ExprRead::Fault(FilterFault::Malformed)
                },
            },
            TokenView::Ident(name) => if t.len() > 1 && t[1] is LParen {
                call_read(name, t.skip(1))
            } else {
                comparison_read(name, t.skip(1))
            },
            _ => ExprRead::Fault(FilterFault::Malformed),
        }
    }
}

/// What a filter text reads as.
pub enum FilterRead {
    /// No expression.
    Fault(FilterFault),
    /// An expression.
    Expr(ExprView),
}

/// The reading of a filter text: all of it must be one expression.
pub open spec fn filter_read(text: Seq<char>, numbers: Seq<(Seq<char>, NumberView)>) -> FilterRead {
    match tokens_read(text, numbers) {
        None => FilterRead::Fault(FilterFault::Malformed),
        Some(tokens) => match or_read(tokens) {
            ExprRead::Fault(fault) => FilterRead::Fault(fault),
            ExprRead::Expr(expr, rest) => if rest.len() == 0 {
                FilterRead::Expr(expr)
            } else {
                FilterRead::Fault(FilterFault::Malformed)
            },
        },
    }
}

/// `error` reports `fault` in the filter text `text`.
pub open spec fn filter_refusal(error: QueryError, fault: FilterFault, text: Seq<char>) -> bool {
    match fault {
        FilterFault::Malformed => error.refuses_filter(text),
        FilterFault::Path(word) => path_refusal(word, error),
    }
}

/// `result` is what `read` says, with the position behind the expression.
pub open spec fn agrees(
    result: Result<(FilterExpr, usize), QueryError>,
    read: ExprRead,
    tokens: Seq<TokenView>,
    pos: int,
    text: Seq<char>,
) -> bool {
    match (result, read) {
        (Err(error), ExprRead::Fault(fault)) => filter_refusal(error, fault, text),
        (Ok(found), ExprRead::Expr(expr, rest)) => {
            &&& found.0.contents() == expr
            &&& rest == tokens.skip(found.1 as int)
            &&& pos < found.1 <= tokens.len()
        },
        _ => false,
    }
}

/// A parser over the tokens of one filter text.
struct FilterParser<'a> {
    expr: &'a str,
    tokens: &'a Vec<FilterToken>,
}

impl<'a> FilterParser<'a> {
    spec fn views(self) -> Seq<TokenView> {
        token_views(self.tokens@)
    }

    fn invalid(&self) -> (error: QueryError)
        ensures
            error.refuses_filter(self.expr@),
    {
        QueryError::unparsable_filter(self.expr)
    }

    fn is_logical(&self, pos: usize, op: LogicalOp) -> (found: bool)
        requires
            pos <= self.tokens@.len(),
        ensures
            found == (pos < self.views().len() && self.views()[pos as int] == TokenView::Logical(
                op,
            )),
    {
        if pos < self.tokens.len() {
            match &self.tokens[pos] {
                FilterToken::Logical(found) => *found == op,
                _ => false,
            }
        } else {
            false
        }
    }

    fn parse_or(&self, pos: usize) -> (result: Result<(FilterExpr, usize), QueryError>)
        requires
            pos <= self.tokens@.len(),
        ensures
            agrees(
                result,
                or_read(self.views().skip(pos as int)),
                self.views(),
                pos as int,
                self.expr@,
            ),
        decreases self.tokens@.len() - pos, 5nat,
    {
        let ghost t = self.views();
        let count: usize = self.tokens.len();
        let (first, after) = match self.parse_and(pos) {
            Ok(found) => found,
            Err(error) => return Err(error),
        };
        let mut at: usize = after;
        let mut arms: Vec<FilterExpr> = Vec::new();
        arms.push(first);
        proof {
            lemma_expr_views(arms@);
            assert(expr_views(arms@) =~= seq![first.contents()]);
        }
        while self.is_logical(at, LogicalOp::Or)
            invariant
                t == self.views(),
                t.len() == self.tokens@.len(),
                count == self.tokens@.len(),
                pos < at <= self.tokens@.len(),
                arms@.len() >= 1,
                or_read(t.skip(pos as int)) == or_arms(t.skip(at as int), expr_views(arms@)),
            decreases self.tokens@.len() - at,
        {
            assert(t.skip(at as int)[0] == t[at as int]);
            assert(t.skip(at as int).skip(1) =~= t.skip(at + 1));
            let (next, after) = match self.parse_and(at + 1) {
                Ok(found) => found,
                Err(error) => return Err(error),
            };
            let ghost before = arms@;
            arms.push(next);
            assert(arms@.drop_last() =~= before);
            at = after;
        }
        proof {
            if at < t.len() {
                assert(t.skip(at as int)[0] == t[at as int]);
            }
            lemma_expr_views(arms@);
        }
        Ok((join_arms(LogicalOp::Or, arms), at))
    }

    fn parse_and(&self, pos: usize) -> (result: Result<(FilterExpr, usize), QueryError>)
        requires
            pos <= self.tokens@.len(),
        ensures
            agrees(
                result,
                and_read(self.views().skip(pos as int)),
                self.views(),
                pos as int,
                self.expr@,
            ),
        decreases self.tokens@.len() - pos, 3nat,
    {
        let ghost t = self.views();
        let count: usize = self.tokens.len();
        let (first, after) = match self.parse_not(pos) {
            Ok(found) => found,
            Err(error) => return Err(error),
        };
        let mut at: usize = after;
        let mut arms: Vec<FilterExpr> = Vec::new();
        arms.push(first);
        proof {
            lemma_expr_views(arms@);
            assert(expr_views(arms@) =~= seq![first.contents()]);
        }
        while self.is_logical(at, LogicalOp::And)
            invariant
                t == self.views(),
                t.len() == self.tokens@.len(),
                count == self.tokens@.len(),
                pos < at <= self.tokens@.len(),
                arms@.len() >= 1,
                and_read(t.skip(pos as int)) == and_arms(t.skip(at as int), expr_views(arms@)),
            decreases self.tokens@.len() - at,
        {
            assert(t.skip(at as int)[0] == t[at as int]);
            assert(t.skip(at as int).skip(1) =~= t.skip(at + 1));
            let (next, after) = match self.parse_not(at + 1) {
                Ok(found) => found,
                Err(error) => return Err(error),
            };
            let ghost before = arms@;
            arms.push(next);
            assert(arms@.drop_last() =~= before);
            at = after;
        }
        proof {
            if at < t.len() {
                assert(t.skip(at as int)[0] == t[at as int]);
            }
            lemma_expr_views(arms@);
        }
        Ok((join_arms(LogicalOp::And, arms), at))
    }

    fn parse_not(&self, pos: usize) -> (result: Result<(FilterExpr, usize), QueryError>)
        requires
            pos <= self.tokens@.len(),
        ensures
            agrees(
                result,
                not_read(self.views().skip(pos as int)),
                self.views(),
                pos as int,
                self.expr@,
            ),
        decreases self.tokens@.len() - pos, 1nat,
    {
        let ghost t = self.views();
        if pos < self.tokens.len() {
            assert(t.skip(pos as int)[0] == self.tokens@[pos as int]@);
            if let FilterToken::Not = &self.tokens[pos] {
                assert(t.skip(pos as int).skip(1) =~= t.skip(pos + 1));
                return match self.parse_not(pos + 1) {
                    Ok((inner, at)) => Ok((FilterExpr::Not(Box::new(inner)), at)),
                    Err(error) => Err(error),
                };
            }
        }
        self.parse_primary(pos)
    }

    fn parse_primary(&self, pos: usize) -> (result: Result<(FilterExpr, usize), QueryError>)
        requires
            pos <= self.tokens@.len(),
        ensures
            agrees(
                result,
                primary_read(self.views().skip(pos as int)),
                self.views(),
                pos as int,
                self.expr@,
            ),
        decreases self.tokens@.len() - pos, 0nat,
    {
        let ghost t = self.views();
        let ghost here = t.skip(pos as int);
        if pos >= self.tokens.len() {
            return Err(self.invalid());
        }
        assert(here[0] == self.tokens@[pos as int]@);
        assert(here.skip(1) =~= t.skip(pos + 1));
        match &self.tokens[pos] {
            FilterToken::LParen => {
                let (inner, at) = match self.parse_or(pos + 1) {
                    Ok(found) => found,
                    Err(error) => return Err(error),
                };
                if at < self.tokens.len() {
                    assert(t.skip(at as int)[0] == self.tokens@[at as int]@);
                    if let FilterToken::RParen = &self.tokens[at] {
                        assert(t.skip(at as int).skip(1) =~= t.skip(at + 1));
                        return Ok((inner, at + 1));
                    }
                }
                Err(self.invalid())
            },
            FilterToken::Ident(name) => {
                let called = if pos + 1 < self.tokens.len() {
                    assert(here[1] == self.tokens@[pos + 1]@);
                    matches!(&self.tokens[pos + 1], FilterToken::LParen)
                } else {
                    false
                };
                if called {
                    self.parse_function_call(name.as_str(), pos + 1)
                } else {
                    self.parse_comparison(name.as_str(), pos + 1)
                }
            },
            _ => Err(self.invalid()),
        }
    }

    /// Reads a function call from its opening parenthesis on.
    fn parse_function_call(&self, name: &str, pos: usize) -> (result: Result<
        (FilterExpr, usize),
        QueryError,
    >)
        requires
            pos < self.tokens@.len(),
        ensures
            agrees(
                result,
                call_read(name@, self.views().skip(pos as int)),
                self.views(),
                pos as int,
                self.expr@,
            ),
    {
        let ghost t = self.views();
        let ghost here = t.skip(pos as int);
        let left: usize = self.tokens.len() - pos;
        if left < 2 {
            return Err(self.invalid());
        }
        assert(here[1] == self.tokens@[pos + 1]@);
        let field = match &self.tokens[pos + 1] {
            FilterToken::Ident(word) => match FieldPath::parse(word.as_str()) {
                Ok(field) => field,
                Err(error) => return Err(error),
            },
            _ => return Err(self.invalid()),
        };
        if left < 5 {
            return Err(self.invalid());
        }
        assert(here[2] == self.tokens@[pos + 2]@);
        assert(here[3] == self.tokens@[pos + 3]@);
        assert(here[4] == self.tokens@[pos + 4]@);
        match (&self.tokens[pos + 2], &self.tokens[pos + 3], &self.tokens[pos + 4]) {
            (FilterToken::Comma, FilterToken::Literal(target), FilterToken::RParen) => {
                if same_ignoring_ascii_case(name, "contains") {
                    assert(here.skip(5) =~= t.skip(pos + 5));
                    Ok((FilterExpr::Contains(field, target.copy()), pos + 5))
                } else {
                    Err(self.invalid())
                }
            },
            _ => Err(self.invalid()),
        }
    }

    /// Reads a comparison behind its field.
    fn parse_comparison(&self, field_ident: &str, pos: usize) -> (result: Result<
        (FilterExpr, usize),
        QueryError,
    >)
        requires
            pos <= self.tokens@.len(),
        ensures
            agrees(
                result,
                comparison_read(field_ident@, self.views().skip(pos as int)),
                self.views(),
                pos as int,
                self.expr@,
            ),
    {
        let ghost t = self.views();
        let ghost here = t.skip(pos as int);
        if pos >= self.tokens.len() {
            return Err(self.invalid());
        }
        assert(here[0] == self.tokens@[pos as int]@);
        let op = match &self.tokens[pos] {
            FilterToken::Op(op) => *op,
            _ => return Err(self.invalid()),
        };
        let field = match FieldPath::parse(field_ident) {
            Ok(field) => field,
            Err(error) => return Err(error),
        };
        if self.tokens.len() - pos < 2 {
            return Err(self.invalid());
        }
        assert(here[1] == self.tokens@[pos + 1]@);
        match &self.tokens[pos + 1] {
            FilterToken::Literal(value) => {
                assert(here.skip(2) =~= t.skip(pos + 2));
                Ok((FilterExpr::Comparison(field, op, value.copy()), pos + 2))
            },
            _ => Err(self.invalid()),
        }
    }
}

proof fn lemma_expr_views(exprs: Seq<FilterExpr>)
    ensures
        expr_views(exprs).len() == exprs.len(),
        forall|i: int|
            0 <= i < exprs.len() ==> (#[trigger] expr_views(exprs)[i]) == exprs[i].contents(),
    decreases exprs.len(),
{
    if exprs.len() > 0 {
        lemma_expr_views(exprs.drop_last());
        assert forall|i: int| 0 <= i < exprs.len() implies (#[trigger] expr_views(exprs)[i])
            == exprs[i].contents() by {
            if i < exprs.len() - 1 {
                assert(expr_views(exprs.drop_last())[i] == exprs.drop_last()[i].contents());
            }
        }
    }
}

fn join_arms(op: LogicalOp, arms: Vec<FilterExpr>) -> (expr: FilterExpr)
    requires
        arms@.len() >= 1,
    ensures
        expr.contents() == joined_arms(op, expr_views(arms@)),
{
    proof {
        lemma_expr_views(arms@);
    }
    let mut arms = arms;
    if arms.len() == 1 {
        let ghost views = expr_views(arms@);
        let only = arms.remove(0);
        assert(views[0] == only.contents());
        only
    } else {
        FilterExpr::Logical(op, arms)
    }
}

/// Whether a list item equals `target`, or is a tag nested under it.
fn tag_or_value_matches(item: &FieldValue, target: &FieldValue) -> (found: bool)
    ensures
        found == item_matches(item.contents(), target.contents()),
{
    if fields_equal(item, target) {
        return true;
    }
    match (item.as_str(), target.as_str()) {
        (Some(tag), Some(parent)) => Tag::new(tag).is_nested_under(parent),
        _ => false,
    }
}

/// Whether `value` contains `target`.
pub fn eval_contains(value: &FieldValue, target: &FieldValue) -> (found: bool)
    ensures
        found == value_contains(value.contents(), target.contents()),
{
    match value {
        FieldValue::List(items) => {
            let ghost views = value_views(items@);
            proof {
                lemma_value_views(items@);
            }
            let mut i: usize = 0;
            let mut found = false;
            while i < items.len() && !found
                invariant
                    i <= items@.len(),
                    views == value_views(items@),
                    views.len() == items@.len(),
                    forall|k: int|
                        0 <= k < views.len() ==> (#[trigger] views[k]) == items@[k].contents(),
                    found == exists|j: int|
                        0 <= j < i && item_matches(#[trigger] views[j], target.contents()),
                decreases items@.len() - i,
            {
                assert(views[i as int] == items@[i as int].contents());
                if tag_or_value_matches(&items[i], target) {
                    found = true;
                }
                i = i + 1;
            }
            proof {
                let view = value.contents();
                assert(view == ValueView::List(views));
                assert(view->List_0 == views);
                if found {
                    let j = choose|j: int|
                        0 <= j < i && item_matches(#[trigger] views[j], target.contents());
                    assert(item_matches(views[j], target.contents()));
                }
                assert(found == exists|j: int|
                    0 <= j < views.len() && item_matches(#[trigger] views[j], target.contents()));
            }
            found
        },
        _ => match (value.as_str(), target.as_str()) {
            (Some(text), Some(part)) => contains(text, part),
            _ => false,
        },
    }
}

impl FilterExpr {
    /// Parses a filter text. `numbers` tells which of its words read as
    /// numbers.
    pub fn parse(expr: &str, numbers: &NumberWords) -> (result: Result<Self, QueryError>)
        ensures
            match (result, filter_read(expr@, numbers@)) {
                (Err(error), FilterRead::Fault(fault)) => filter_refusal(error, fault, expr@),
                (Ok(found), FilterRead::Expr(view)) => found.contents() == view,
                _ => false,
            },
    {
        let tokens = match tokenize_filter_expr(expr, numbers) {
            Ok(tokens) => tokens,
            Err(error) => return Err(error),
        };
        let parser = FilterParser { expr, tokens: &tokens };
        let ghost t = token_views(tokens@);
        assert(t.skip(0) =~= t);
        match parser.parse_or(0) {
            Err(error) => Err(error),
            Ok((found, at)) => {
                if at < tokens.len() {
                    Err(QueryError::unparsable_filter(expr))
                } else {
                    Ok(found)
                }
            },
        }
    }

    /// Whether `record` satisfies this expression.
    pub fn matches(&self, record: &IndexRecord) -> (found: bool)
        ensures
            found == expr_holds(self.contents(), record@),
        decreases self,
    {
        match self {
            FilterExpr::Comparison(field, op, value) => op.is_satisfied_by(
                &record.resolve(field),
                value,
            ),
            FilterExpr::Contains(field, value) => eval_contains(&record.resolve(field), value),
            FilterExpr::Logical(op, exprs) => {
                assert(decreases_to!(self => exprs));
                assert(decreases_to!(exprs => exprs@));
                assert(exprs@.take(exprs@.len() as int) =~= exprs@);
                match op {
                    LogicalOp::And => Self::all_match(exprs, exprs.len(), record),
                    LogicalOp::Or => Self::any_matches(exprs, exprs.len(), record),
                }
            },
            FilterExpr::Not(inner) => !inner.matches(record),
        }
    }

    fn all_match(exprs: &Vec<FilterExpr>, n: usize, record: &IndexRecord) -> (found: bool)
        requires
            n <= exprs@.len(),
        ensures
            found == all_hold(expr_views(exprs@.take(n as int)), record@),
        decreases exprs@, n,
    {
        let ghost x = exprs@.take(n as int);
        proof {
            lemma_expr_views(x);
        }
        if n == 0 {
            return true;
        }
        assert(x.drop_last() =~= exprs@.take(n - 1));
        assert(expr_views(x).drop_last() =~= expr_views(x.drop_last()));
        assert(decreases_to!(exprs@ => exprs@[n - 1]));
        exprs[n - 1].matches(record) && Self::all_match(exprs, n - 1, record)
    }

    fn any_matches(exprs: &Vec<FilterExpr>, n: usize, record: &IndexRecord) -> (found: bool)
        requires
            n <= exprs@.len(),
        ensures
            found == any_holds(expr_views(exprs@.take(n as int)), record@),
        decreases exprs@, n,
    {
        let ghost x = exprs@.take(n as int);
        proof {
            lemma_expr_views(x);
        }
        if n == 0 {
            return false;
        }
        assert(x.drop_last() =~= exprs@.take(n - 1));
        assert(expr_views(x).drop_last() =~= expr_views(x.drop_last()));
        assert(decreases_to!(exprs@ => exprs@[n - 1]));
        exprs[n - 1].matches(record) || Self::any_matches(exprs, n - 1, record)
    }
}

/// `AND` holds where every arm holds, `OR` where one does.
pub proof fn law_logical_arms(exprs: Seq<ExprView>, record: RecordView)
    ensures
        expr_holds(ExprView::Logical(LogicalOp::And, exprs), record) <==> (forall|i: int|
            0 <= i < exprs.len() ==> expr_holds(#[trigger] exprs[i], record)),
        expr_holds(ExprView::Logical(LogicalOp::Or, exprs), record) <==> (exists|i: int|
            0 <= i < exprs.len() && expr_holds(#[trigger] exprs[i], record)),
{
    lemma_all_hold(exprs, record);
    lemma_any_holds(exprs, record);
}

proof fn lemma_all_hold(exprs: Seq<ExprView>, record: RecordView)
    ensures
        all_hold(exprs, record) <==> (forall|i: int|
            0 <= i < exprs.len() ==> expr_holds(#[trigger] exprs[i], record)),
    decreases exprs.len(),
{
    if exprs.len() > 0 {
        let front = exprs.drop_last();
        lemma_all_hold(front, record);
        if all_hold(exprs, record) {
            assert forall|i: int| 0 <= i < exprs.len() implies expr_holds(
                #[trigger] exprs[i],
                record,
            ) by {
                if i < front.len() {
                    assert(front[i] == exprs[i]);
                }
            }
        } else if forall|i: int| 0 <= i < exprs.len() ==> expr_holds(#[trigger] exprs[i], record) {
            assert forall|i: int| 0 <= i < front.len() implies expr_holds(
                #[trigger] front[i],
                record,
            ) by {
                assert(front[i] == exprs[i]);
            }
            assert(expr_holds(exprs[exprs.len() - 1], record));
        }
    }
}

proof fn lemma_any_holds(exprs: Seq<ExprView>, record: RecordView)
    ensures
        any_holds(exprs, record) <==> (exists|i: int|
            0 <= i < exprs.len() && expr_holds(#[trigger] exprs[i], record)),
    decreases exprs.len(),
{
    if exprs.len() > 0 {
        let front = exprs.drop_last();
        lemma_any_holds(front, record);
        if any_holds(exprs, record) {
            if expr_holds(exprs.last(), record) {
                assert(expr_holds(exprs[exprs.len() - 1], record));
            } else {
                let i = choose|i: int| 0 <= i < front.len() && expr_holds(#[trigger] front[i], record);
                assert(expr_holds(exprs[i], record));
            }
        } else if exists|i: int| 0 <= i < exprs.len() && expr_holds(#[trigger] exprs[i], record) {
            let i = choose|i: int| 0 <= i < exprs.len() && expr_holds(#[trigger] exprs[i], record);
            if i < front.len() {
                assert(expr_holds(front[i], record));
            }
        }
    }
}

/// A list that holds a tag contains every tag that it is nested under.
pub proof fn law_contains_finds_nested_tags(
    items: Seq<ValueView>,
    i: int,
    tag: Seq<char>,
    parent: Seq<char>,
)
    requires
        0 <= i < items.len(),
        items[i] == ValueView::String(tag),
        is_nested_tag(tag, parent),
    ensures
        value_contains(ValueView::List(items), ValueView::String(parent)),
{
    let target = ValueView::String(parent);
    assert(item_matches(items[i], target));
    assert(exists|k: int| 0 <= k < items.len() && item_matches(#[trigger] items[k], target));
    let list = ValueView::List(items);
    assert(list->List_0 == items);
}

/// A list of texts contains exactly those texts that one of its items equals or
/// is nested under: that an item merely holds a text is not enough.
pub proof fn law_list_items_match_whole(texts: Seq<Seq<char>>, target: Seq<char>)
    ensures
        value_contains(
            ValueView::List(Seq::new(texts.len(), |i: int| ValueView::String(texts[i]))),
            ValueView::String(target),
        ) <==> exists|i: int|
            0 <= i < texts.len() && (#[trigger] texts[i] == target || begins_with(
                texts[i],
                target.push('/'),
            )),
{
    let items = Seq::new(texts.len(), |i: int| ValueView::String(texts[i]));
    let list = ValueView::List(items);
    let part = ValueView::String(target);
    assert(list->List_0 == items);
    assert forall|i: int| 0 <= i < items.len() implies item_matches(#[trigger] items[i], part)
        == is_nested_tag(texts[i], target) by {
        assert(items[i] == ValueView::String(texts[i]));
    }
    if exists|i: int| 0 <= i < texts.len() && is_nested_tag(#[trigger] texts[i], target) {
        let i = choose|i: int| 0 <= i < texts.len() && is_nested_tag(#[trigger] texts[i], target);
        assert(item_matches(items[i], part));
    }
    if value_contains(list, part) {
        let i = choose|i: int| 0 <= i < items.len() && item_matches(#[trigger] items[i], part);
        assert(is_nested_tag(texts[i], target));
    }
}

} // verus!
