//! The two-level query parser.
//!
//! Level one walks the flat token stream and maintains a stack of field
//! scopes: `<` opens a scope (taking its target field and invert flag from
//! the tail of the enclosing scope's buffer), `>` closes one and folds its
//! buffer into the per-field query. Level two parses one scope's buffer by
//! recursive descent: `|` is the lowest-precedence operator, adjacency is
//! AND, `?` inverts the whole primary that follows it, and parentheses
//! group.

use vstd::prelude::*;

use crate::error::CaverError;
use crate::error::CaverResult;
use crate::search::token::tokens_view;
use crate::search::token::SearchParamsToken;
use crate::search::token::TokenModel;
use crate::search::ExprModel;
use crate::search::ExprValModel;
use crate::search::ParamsModel;
use crate::search::SearchExpr;
use crate::search::SearchExprValue;
use crate::search::SearchField;
use crate::search::SearchOperation;
use crate::search::SearchOperator;
use crate::search::SearchParams;
use crate::search::spec_field_of;
use crate::search::spec_invert;

verus! {

/// What parsing a run of tokens can come to: an expression and the tokens
/// that follow it, or a grammar violation.
pub enum ParseOutcome {
    Parsed(ExprModel, Seq<TokenModel>),
    Failed,
}

pub open spec fn spec_value(text: Seq<char>) -> ExprModel {
    ExprModel { inverted: false, val: ExprValModel::Value(text) }
}

pub open spec fn spec_op(op: SearchOperator, l: ExprModel, r: ExprModel) -> ExprModel {
    ExprModel { inverted: false, val: ExprValModel::Operation(op, seq![l, r]) }
}

/// Tokens that can begin a unit of a primary.
pub open spec fn spec_atom_start(t: TokenModel) -> bool {
    t is Word || t is Not || t is GroupOpen
}

/// unit := WORD | `?` primary | `(` expr `)`
///
/// A `?` inverts the whole primary that follows it, so `?a b` means
/// NOT(a AND b).
pub open spec fn spec_parse_unit(toks: Seq<TokenModel>) -> ParseOutcome
    decreases toks.len(), 0int,
{
    if toks.len() == 0 {
        ParseOutcome::Failed
    } else {
        match toks[0] {
            TokenModel::Word(w) => ParseOutcome::Parsed(spec_value(w), toks.drop_first()),
            TokenModel::Not => match spec_parse_primary(toks.drop_first()) {
                ParseOutcome::Parsed(e, rest) => ParseOutcome::Parsed(spec_invert(e), rest),
                ParseOutcome::Failed => ParseOutcome::Failed,
            },
            TokenModel::GroupOpen => match spec_parse_expr(toks.drop_first()) {
                ParseOutcome::Parsed(e, rest) => {
                    if rest.len() > 0 && rest[0] is GroupClose {
                        ParseOutcome::Parsed(e, rest.drop_first())
                    } else {
                        ParseOutcome::Failed
                    }
                },
                ParseOutcome::Failed => ParseOutcome::Failed,
            },
            _ => ParseOutcome::Failed,
        }
    }
}

/// primary := unit unit*, folded left with AND.
pub open spec fn spec_parse_primary(toks: Seq<TokenModel>) -> ParseOutcome
    decreases toks.len(), 2int,
{
    match spec_parse_unit(toks) {
        ParseOutcome::Parsed(e, rest) => {
            if rest.len() <= toks.len() {
                spec_parse_and_tail(e, rest)
            } else {
                ParseOutcome::Failed
            }
        },
        ParseOutcome::Failed => ParseOutcome::Failed,
    }
}

/// Folds further units onto `acc` with AND while a unit can start.
pub open spec fn spec_parse_and_tail(acc: ExprModel, toks: Seq<TokenModel>) -> ParseOutcome
    decreases toks.len(), 1int,
{
    if toks.len() > 0 && spec_atom_start(toks[0]) {
        match spec_parse_unit(toks) {
            ParseOutcome::Parsed(u, rest) => {
                if rest.len() < toks.len() {
                    spec_parse_and_tail(spec_op(SearchOperator::And, acc, u), rest)
                } else {
                    ParseOutcome::Failed
                }
            },
            ParseOutcome::Failed => ParseOutcome::Failed,
        }
    } else {
        ParseOutcome::Parsed(acc, toks)
    }
}

/// expr := primary (`|` primary)*, folded left with OR.
pub open spec fn spec_parse_expr(toks: Seq<TokenModel>) -> ParseOutcome
    decreases toks.len(), 3int,
{
    match spec_parse_primary(toks) {
        ParseOutcome::Parsed(e, rest) => {
            if rest.len() <= toks.len() {
                spec_parse_or_tail(e, rest)
            } else {
                ParseOutcome::Failed
            }
        },
        ParseOutcome::Failed => ParseOutcome::Failed,
    }
}

/// Folds further primaries onto `acc` with OR while an `|` follows.
pub open spec fn spec_parse_or_tail(acc: ExprModel, toks: Seq<TokenModel>) -> ParseOutcome
    decreases toks.len(), 2int,
{
    if toks.len() > 0 && toks[0] is Or {
        match spec_parse_primary(toks.drop_first()) {
            ParseOutcome::Parsed(e, rest) => {
                if rest.len() < toks.len() {
                    spec_parse_or_tail(spec_op(SearchOperator::Or, acc, e), rest)
                } else {
                    ParseOutcome::Failed
                }
            },
            ParseOutcome::Failed => ParseOutcome::Failed,
        }
    } else {
        ParseOutcome::Parsed(acc, toks)
    }
}

fn atom_starts(t: &SearchParamsToken) -> (r: bool)
    ensures
        r == spec_atom_start(t@),
{
    match t {
        SearchParamsToken::Word(_) => true,
        SearchParamsToken::Inverter => true,
        SearchParamsToken::Paren(o) => matches!(o, crate::search::token::Opening::Opened),
        _ => false,
    }
}

fn parse_unit(toks: &Vec<SearchParamsToken>, pos: usize) -> (r: Result<(SearchExpr, usize), ()>)
    requires
        pos <= toks@.len(),
    ensures
        match r {
            Ok((e, p2)) => pos < p2 <= toks@.len() && spec_parse_unit(
                tokens_view(toks@).skip(pos as int),
            ) == ParseOutcome::Parsed(e@, tokens_view(toks@).skip(p2 as int)),
            Err(()) => spec_parse_unit(tokens_view(toks@).skip(pos as int)) is Failed,
        },
    decreases toks@.len() - pos, 0int,
{
    let ghost v = tokens_view(toks@);
    proof {
        assert(v.len() == toks@.len());
        if pos < toks@.len() {
            assert(v.skip(pos as int)[0] == toks@[pos as int]@);
            assert(v.skip(pos as int).drop_first() =~= v.skip(pos as int + 1));
        }
    }
    if pos == toks.len() {
        return Err(());
    }
    match &toks[pos] {
        SearchParamsToken::Word(w) => {
            let text = w.clone();
            Ok((SearchExpr { expr: SearchExprValue::Value(text), inverted: false }, pos + 1))
        },
        SearchParamsToken::Inverter => {
            match parse_primary(toks, pos + 1) {
                Ok((e, p2)) => {
                    let inverted = !e.inverted;
                    Ok((SearchExpr { expr: e.expr, inverted }, p2))
                },
                Err(()) => Err(()),
            }
        },
        SearchParamsToken::Paren(crate::search::token::Opening::Opened) => {
            match parse_expr(toks, pos + 1) {
                Ok((e, p2)) => {
                    proof {
                        if p2 < toks@.len() {
                            assert(v.skip(p2 as int)[0] == toks@[p2 as int]@);
                            assert(v.skip(p2 as int).drop_first() =~= v.skip(p2 as int + 1));
                        }
                    }
                    if p2 < toks.len() && matches!(
                        &toks[p2],
                        SearchParamsToken::Paren(crate::search::token::Opening::Closed),
                    ) {
                        Ok((e, p2 + 1))
                    } else {
                        Err(())
                    }
                },
                Err(()) => Err(()),
            }
        },
        _ => Err(()),
    }
}

fn parse_primary(toks: &Vec<SearchParamsToken>, pos: usize) -> (r: Result<
    (SearchExpr, usize),
    (),
>)
    requires
        pos <= toks@.len(),
    ensures
        match r {
            Ok((e, p2)) => pos < p2 <= toks@.len() && spec_parse_primary(
                tokens_view(toks@).skip(pos as int),
            ) == ParseOutcome::Parsed(e@, tokens_view(toks@).skip(p2 as int)),
            Err(()) => spec_parse_primary(tokens_view(toks@).skip(pos as int)) is Failed,
        },
    decreases toks@.len() - pos, 2int,
{
    match parse_unit(toks, pos) {
        Ok((e, p2)) => parse_and_tail(toks, e, p2),
        Err(()) => Err(()),
    }
}

fn parse_and_tail(toks: &Vec<SearchParamsToken>, acc: SearchExpr, pos: usize) -> (r: Result<
    (SearchExpr, usize),
    (),
>)
    requires
        pos <= toks@.len(),
    ensures
        match r {
            Ok((e, p2)) => pos <= p2 <= toks@.len() && spec_parse_and_tail(
                acc@,
                tokens_view(toks@).skip(pos as int),
            ) == ParseOutcome::Parsed(e@, tokens_view(toks@).skip(p2 as int)),
            Err(()) => spec_parse_and_tail(acc@, tokens_view(toks@).skip(pos as int)) is Failed,
        },
    decreases toks@.len() - pos, 1int,
{
    let ghost v = tokens_view(toks@);
    proof {
        assert(v.len() == toks@.len());
        if pos < toks@.len() {
            assert(v.skip(pos as int)[0] == toks@[pos as int]@);
        }
    }
    if pos < toks.len() && atom_starts(&toks[pos]) {
        match parse_unit(toks, pos) {
            Ok((u, p2)) => {
                let next = SearchExpr {
                    expr: SearchExprValue::Operation(
                        Box::new(
                            SearchOperation { operation: SearchOperator::And, lhs: acc, rhs: u },
                        ),
                    ),
                    inverted: false,
                };
                parse_and_tail(toks, next, p2)
            },
            Err(()) => Err(()),
        }
    } else {
        Ok((acc, pos))
    }
}

fn parse_expr(toks: &Vec<SearchParamsToken>, pos: usize) -> (r: Result<(SearchExpr, usize), ()>)
    requires
        pos <= toks@.len(),
    ensures
        match r {
            Ok((e, p2)) => pos < p2 <= toks@.len() && spec_parse_expr(
                tokens_view(toks@).skip(pos as int),
            ) == ParseOutcome::Parsed(e@, tokens_view(toks@).skip(p2 as int)),
            Err(()) => spec_parse_expr(tokens_view(toks@).skip(pos as int)) is Failed,
        },
    decreases toks@.len() - pos, 3int,
{
    match parse_primary(toks, pos) {
        Ok((e, p2)) => parse_or_tail(toks, e, p2),
        Err(()) => Err(()),
    }
}

fn parse_or_tail(toks: &Vec<SearchParamsToken>, acc: SearchExpr, pos: usize) -> (r: Result<
    (SearchExpr, usize),
    (),
>)
    requires
        pos <= toks@.len(),
    ensures
        match r {
            Ok((e, p2)) => pos <= p2 <= toks@.len() && spec_parse_or_tail(
                acc@,
                tokens_view(toks@).skip(pos as int),
            ) == ParseOutcome::Parsed(e@, tokens_view(toks@).skip(p2 as int)),
            Err(()) => spec_parse_or_tail(acc@, tokens_view(toks@).skip(pos as int)) is Failed,
        },
    decreases toks@.len() - pos, 2int,
{
    let ghost v = tokens_view(toks@);
    proof {
        assert(v.len() == toks@.len());
        if pos < toks@.len() {
            assert(v.skip(pos as int)[0] == toks@[pos as int]@);
            assert(v.skip(pos as int).drop_first() =~= v.skip(pos as int + 1));
        }
    }
    if pos < toks.len() && matches!(&toks[pos], SearchParamsToken::Or) {
        match parse_primary(toks, pos + 1) {
            Ok((e, p2)) => {
                let next = SearchExpr {
                    expr: SearchExprValue::Operation(
                        Box::new(
                            SearchOperation { operation: SearchOperator::Or, lhs: acc, rhs: e },
                        ),
                    ),
                    inverted: false,
                };
                parse_or_tail(toks, next, p2)
            },
            Err(()) => Err(()),
        }
    } else {
        Ok((acc, pos))
    }
}

/// One open `<...>` scope: the field it routes to, its invert flag, and
/// the tokens gathered so far.
#[verifier::ext_equal]
pub struct ScopeModel {
    pub field: SearchField,
    pub inverted: bool,
    pub buf: Seq<TokenModel>,
}

struct ParseScope {
    field: SearchField,
    inverted: bool,
    buf: Vec<SearchParamsToken>,
}

impl View for ParseScope {
    type V = ScopeModel;

    closed spec fn view(&self) -> ScopeModel {
        ScopeModel { field: self.field, inverted: self.inverted, buf: tokens_view(self.buf@) }
    }
}

pub open spec fn spec_empty_params() -> ParamsModel {
    ParamsModel { name: None, path: None, content: None }
}

pub open spec fn spec_get_field(p: ParamsModel, f: SearchField) -> Option<ExprModel> {
    match f {
        SearchField::Name => p.name,
        SearchField::Path => p.path,
        SearchField::Content => p.content,
    }
}

pub open spec fn spec_set_field(p: ParamsModel, f: SearchField, e: ExprModel) -> ParamsModel {
    match f {
        SearchField::Name => ParamsModel { name: Some(e), ..p },
        SearchField::Path => ParamsModel { path: Some(e), ..p },
        SearchField::Content => ParamsModel { content: Some(e), ..p },
    }
}

/// What a freshly opened scope takes from the tail of the enclosing
/// buffer: trailing `?` tokens each toggle its invert flag, and a word
/// below them that names a field is popped and becomes its target. Any
/// other word stays in the enclosing buffer and the scope targets Name.
pub open spec fn spec_scope_open(buf: Seq<TokenModel>) -> (SearchField, bool, Seq<TokenModel>)
    decreases buf.len(),
{
    if buf.len() == 0 {
        (SearchField::Name, false, buf)
    } else {
        match buf.last() {
            TokenModel::Not => {
                let (f, inv, rest) = spec_scope_open(buf.drop_last());
                (f, !inv, rest)
            },
            TokenModel::Word(w) => match spec_field_of(w) {
                Some(f) => (f, false, buf.drop_last()),
                None => (SearchField::Name, false, buf),
            },
            _ => (SearchField::Name, false, buf),
        }
    }
}

/// The merge rule on scope close: a second expression for a field is ANDed
/// onto the first, and only such a merged node takes the scope's invert
/// flag; a field's first expression is stored untouched.
pub open spec fn spec_merge(prior: Option<ExprModel>, e: ExprModel, inverted: bool) -> ExprModel {
    match prior {
        Some(p) => ExprModel {
            inverted,
            val: ExprValModel::Operation(SearchOperator::And, seq![p, e]),
        },
        None => e,
    }
}

/// Folds a closed scope's buffer into the per-field query. An empty buffer
/// contributes nothing; a buffer that level two cannot parse to its end is
/// a grammar violation.
pub open spec fn spec_flush(scope: ScopeModel, acc: ParamsModel) -> Option<ParamsModel> {
    if scope.buf.len() == 0 {
        Some(acc)
    } else {
        match spec_parse_expr(scope.buf) {
            ParseOutcome::Parsed(e, rest) => {
                if rest.len() == 0 {
                    Some(
                        spec_set_field(
                            acc,
                            scope.field,
                            spec_merge(spec_get_field(acc, scope.field), e, scope.inverted),
                        ),
                    )
                } else {
                    None
                }
            },
            ParseOutcome::Failed => None,
        }
    }
}

/// Level one: walk the token stream maintaining a stack of scopes, then
/// flush the scope left open at the end of input. Tokens that arrive after
/// the outermost scope was closed by a stray `>` are dropped.
pub open spec fn spec_segment(
    toks: Seq<TokenModel>,
    stack: Seq<ScopeModel>,
    acc: ParamsModel,
) -> Option<ParamsModel>
    decreases toks.len(),
{
    if toks.len() == 0 {
        if stack.len() == 0 {
            Some(acc)
        } else {
            spec_flush(stack.last(), acc)
        }
    } else {
        match toks[0] {
            TokenModel::FieldOpen => {
                if stack.len() == 0 {
                    spec_segment(
                        toks.drop_first(),
                        seq![
                            ScopeModel {
                                field: SearchField::Name,
                                inverted: false,
                                buf: Seq::empty(),
                            },
                        ],
                        acc,
                    )
                } else {
                    let top = stack.last();
                    let (f, inv, rest_buf) = spec_scope_open(top.buf);
                    spec_segment(
                        toks.drop_first(),
                        stack.update(
                            stack.len() - 1,
                            ScopeModel { field: top.field, inverted: top.inverted, buf: rest_buf },
                        ).push(ScopeModel { field: f, inverted: inv, buf: Seq::empty() }),
                        acc,
                    )
                }
            },
            TokenModel::FieldClose => {
                if stack.len() == 0 {
                    spec_segment(toks.drop_first(), stack, acc)
                } else {
                    match spec_flush(stack.last(), acc) {
                        Some(acc2) => spec_segment(toks.drop_first(), stack.drop_last(), acc2),
                        None => None,
                    }
                }
            },
            t => {
                if stack.len() == 0 {
                    spec_segment(toks.drop_first(), stack, acc)
                } else {
                    let top = stack.last();
                    spec_segment(
                        toks.drop_first(),
                        stack.update(
                            stack.len() - 1,
                            ScopeModel {
                                field: top.field,
                                inverted: top.inverted,
                                buf: top.buf.push(t),
                            },
                        ),
                        acc,
                    )
                }
            },
        }
    }
}

/// The whole parse: one initial scope targeting Name, nothing constrained.
pub open spec fn spec_parse_params(toks: Seq<TokenModel>) -> Option<ParamsModel> {
    spec_segment(
        toks,
        seq![ScopeModel { field: SearchField::Name, inverted: false, buf: Seq::empty() }],
        spec_empty_params(),
    )
}

spec fn scopes_view(s: Seq<ParseScope>) -> Seq<ScopeModel> {
    s.map_values(|x: ParseScope| x@)
}

/// Pops a new scope's field word and invert toggles off the tail of the
/// enclosing buffer.
fn open_scope(buf: &mut Vec<SearchParamsToken>) -> (r: (SearchField, bool))
    ensures
        spec_scope_open(tokens_view(old(buf)@)) == (r.0, r.1, tokens_view(final(buf)@)),
    decreases old(buf)@.len(),
{
    let ghost v = tokens_view(buf@);
    let n = buf.len();
    if n == 0 {
        return (SearchField::Name, false);
    }
    proof {
        assert(v.last() == buf@.last()@);
        assert(tokens_view(buf@.drop_last()) =~= v.drop_last());
    }
    let decision: (bool, Option<SearchField>) = match &buf[n - 1] {
        SearchParamsToken::Inverter => (true, None),
        SearchParamsToken::Word(w) => (false, SearchField::from_string(w.as_str())),
        _ => (false, None),
    };
    if decision.0 {
        buf.pop();
        let (f, i) = open_scope(buf);
        return (f, !i);
    }
    match decision.1 {
        Some(f) => {
            buf.pop();
            (f, false)
        },
        None => (SearchField::Name, false),
    }
}

/// Parses a closed scope's buffer and merges it into the query being
/// accumulated.
fn flush_scope(scope: ParseScope, acc: &mut SearchParams) -> (r: Result<(), ()>)
    ensures
        match r {
            Ok(()) => Some(final(acc)@) == spec_flush(scope@, old(acc)@),
            Err(()) => spec_flush(scope@, old(acc)@) is None,
        },
{
    if scope.buf.len() == 0 {
        return Ok(());
    }
    let ghost bv = tokens_view(scope.buf@);
    proof {
        assert(bv.skip(0) =~= bv);
    }
    match parse_expr(&scope.buf, 0) {
        Ok((e, p2)) => {
            if p2 != scope.buf.len() {
                proof {
                    assert(bv.skip(p2 as int).len() > 0);
                }
                return Err(());
            }
            proof {
                assert(bv.skip(p2 as int) =~= Seq::<TokenModel>::empty());
            }
            let prior = match scope.field {
                SearchField::Name => acc.name.take(),
                SearchField::Path => acc.path.take(),
                SearchField::Content => acc.content.take(),
            };
            let merged = match prior {
                Some(p) => SearchExpr {
                    expr: SearchExprValue::Operation(
                        Box::new(
                            SearchOperation { operation: SearchOperator::And, lhs: p, rhs: e },
                        ),
                    ),
                    inverted: scope.inverted,
                },
                None => e,
            };
            match scope.field {
                SearchField::Name => {
                    acc.name = Some(merged);
                },
                SearchField::Path => {
                    acc.path = Some(merged);
                },
                SearchField::Content => {
                    acc.content = Some(merged);
                },
            }
            Ok(())
        },
        Err(()) => Err(()),
    }
}

impl SearchParams {
    /// Parses a token stream into the per-field query, or reports the
    /// grammar violation that stops it.
    #[verifier::loop_isolation(false)]
    pub fn parse(tokens: Vec<SearchParamsToken>) -> (r: CaverResult<SearchParams>)
        ensures
            match r {
                Ok(p) => Some(p@) == spec_parse_params(tokens_view(tokens@)),
                Err(e) => spec_parse_params(tokens_view(tokens@)) is None && e is ParseError,
            },
    {
        let ghost v0 = tokens_view(tokens@);
        let mut toks = tokens;
        let mut stack: Vec<ParseScope> = Vec::new();
        stack.push(ParseScope { field: SearchField::Name, inverted: false, buf: Vec::new() });
        let mut acc = SearchParams { name: None, path: None, content: None };
        proof {
            assert(tokens_view(stack@[0].buf@) =~= Seq::<TokenModel>::empty());
            assert(scopes_view(stack@) =~~= seq![
                ScopeModel { field: SearchField::Name, inverted: false, buf: Seq::empty() },
            ]);
        }
        while toks.len() > 0
            invariant
                spec_segment(tokens_view(toks@), scopes_view(stack@), acc@) == spec_parse_params(
                    v0,
                ),
            decreases toks@.len(),
        {
            let ghost vrem = tokens_view(toks@);
            let ghost sv = scopes_view(stack@);
            let ghost acc0 = acc@;
            proof {
                assert(vrem[0] == toks@[0]@);
                assert(tokens_view(toks@.remove(0)) =~= vrem.drop_first());
            }
            let t = toks.remove(0);
            match t {
                SearchParamsToken::Delimiter(crate::search::token::Opening::Opened) => {
                    if stack.len() == 0 {
                        stack.push(
                            ParseScope { field: SearchField::Name, inverted: false, buf: Vec::new() },
                        );
                        proof {
                            assert(tokens_view(stack@[0].buf@) =~= Seq::<TokenModel>::empty());
                            assert(scopes_view(stack@) =~= seq![
                                ScopeModel {
                                    field: SearchField::Name,
                                    inverted: false,
                                    buf: Seq::empty(),
                                },
                            ]);
                        }
                    } else {
                        let mut top = stack.pop().unwrap();
                        let ghost topv = top@;
                        let (f, inv) = open_scope(&mut top.buf);
                        stack.push(top);
                        stack.push(ParseScope { field: f, inverted: inv, buf: Vec::new() });
                        proof {
                            let (sf, sinv, srest) = spec_scope_open(topv.buf);
                            assert(tokens_view(stack@[stack@.len() - 1].buf@)
                                =~= Seq::<TokenModel>::empty());
                            assert(scopes_view(stack@) =~= sv.update(
                                sv.len() - 1,
                                ScopeModel {
                                    field: topv.field,
                                    inverted: topv.inverted,
                                    buf: srest,
                                },
                            ).push(ScopeModel { field: sf, inverted: sinv, buf: Seq::empty() }));
                        }
                    }
                },
                SearchParamsToken::Delimiter(crate::search::token::Opening::Closed) => {
                    if stack.len() > 0 {
                        let top = stack.pop().unwrap();
                        proof {
                            assert(top@ == sv.last());
                            assert(scopes_view(stack@) =~= sv.drop_last());
                        }
                        match flush_scope(top, &mut acc) {
                            Ok(()) => {},
                            Err(()) => {
                                proof {
                                    assert(spec_segment(vrem, sv, acc0) is None);
                                }
                                return Err(CaverError::ParseError);
                            },
                        }
                    }
                },
                other => {
                    if stack.len() > 0 {
                        let ghost ot = other@;
                        let mut top = stack.pop().unwrap();
                        let ghost topv = top@;
                        top.buf.push(other);
                        proof {
                            assert(tokens_view(top.buf@) =~= topv.buf.push(ot));
                        }
                        stack.push(top);
                        proof {
                            assert(scopes_view(stack@) =~= sv.update(
                                sv.len() - 1,
                                ScopeModel {
                                    field: topv.field,
                                    inverted: topv.inverted,
                                    buf: topv.buf.push(ot),
                                },
                            ));
                        }
                    }
                },
            }
        }
        if stack.len() == 0 {
            Ok(acc)
        } else {
            let ghost sv = scopes_view(stack@);
            let ghost acc0 = acc@;
            let top = stack.pop().unwrap();
            proof {
                assert(top@ == sv.last());
            }
            match flush_scope(top, &mut acc) {
                Ok(()) => Ok(acc),
                Err(()) => {
                    proof {
                        assert(spec_segment(tokens_view(toks@), sv, acc0) is None);
                    }
                    Err(CaverError::ParseError)
                },
            }
        }
    }
}

} // verus!
