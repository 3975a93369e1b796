//! The query language: expression trees, their evaluator, and the per-field
//! query that the parser produces.
//!
//! A query constrains up to three independent axes of a file — its name,
//! its path, and its content. Each axis holds an optional expression tree
//! of substring tests combined with AND and OR; every node of the tree
//! carries an invert flag that is XORed into the node's result.

pub mod parse;
pub mod token;

use vstd::prelude::*;

use crate::error::CaverError;
use crate::error::CaverResult;
use crate::search::parse::spec_parse_params;
use crate::search::token::spec_tokenize;
use crate::search::token::SearchParamsTokenizer;
use crate::text::spec_contains;
use crate::text::str_contains;
use crate::text::str_eq;

verus! {

#[derive(Debug, Clone, PartialEq, Eq, Structural)]
pub enum SearchOperator {
    And,
    Or,
}

#[derive(Debug, PartialEq)]
pub enum SearchExprValue {
    Operation(Box<SearchOperation>),
    Value(String),
}

#[derive(Debug, PartialEq)]
pub struct SearchExpr {
    pub expr: SearchExprValue,
    pub inverted: bool,
}

#[derive(Debug, PartialEq)]
pub struct SearchOperation {
    pub operation: SearchOperator,
    pub lhs: SearchExpr,
    pub rhs: SearchExpr,
}

/// The mathematical form of an expression node. An operation's two
/// operands sit in a sequence: the left one first, the right one second.
pub struct ExprModel {
    pub inverted: bool,
    pub val: ExprValModel,
}

pub enum ExprValModel {
    Operation(SearchOperator, Seq<ExprModel>),
    Value(Seq<char>),
}

pub open spec fn expr_model(e: SearchExpr) -> ExprModel
    decreases e,
{
    ExprModel {
        inverted: e.inverted,
        val: match e.expr {
            SearchExprValue::Value(s) => ExprValModel::Value(s@),
            SearchExprValue::Operation(op) => ExprValModel::Operation(
                op.operation,
                seq![expr_model(op.lhs), expr_model(op.rhs)],
            ),
        },
    }
}

impl View for SearchExpr {
    type V = ExprModel;

    open spec fn view(&self) -> ExprModel {
        expr_model(*self)
    }
}

/// What an expression says of a subject string: a leaf tests substring
/// containment, AND and OR combine their operands, and the node's invert
/// flag is XORed into the result.
pub open spec fn spec_eval(e: ExprModel, subject: Seq<char>) -> bool
    decreases e,
{
    e.inverted != match e.val {
        ExprValModel::Value(t) => spec_contains(subject, t),
        ExprValModel::Operation(op, args) => {
            if args.len() != 2 {
                arbitrary()
            } else if op == SearchOperator::And {
                spec_eval(args[0], subject) && spec_eval(args[1], subject)
            } else {
                spec_eval(args[0], subject) || spec_eval(args[1], subject)
            }
        },
    }
}

/// The same expression with its outer invert flag toggled.
pub open spec fn spec_invert(e: ExprModel) -> ExprModel {
    ExprModel { inverted: !e.inverted, val: e.val }
}

/// Inverting an expression twice leaves its meaning untouched, so a doubly
/// negated query asks exactly what the unnegated query asks.
pub proof fn lemma_double_invert(e: ExprModel, subject: Seq<char>)
    ensures
        spec_eval(spec_invert(spec_invert(e)), subject) == spec_eval(e, subject),
{
}

impl SearchExpr {
    /// Evaluates this expression against one subject string, with AND and
    /// OR short-circuiting on their left operand.
    pub fn process(&self, s: &str) -> (r: bool)
        ensures
            r == spec_eval(self@, s@),
        decreases *self,
    {
        let base = match &self.expr {
            SearchExprValue::Value(value) => str_contains(s, value.as_str()),
            SearchExprValue::Operation(op) => {
                let lhs = op.lhs.process(s);
                match op.operation {
                    SearchOperator::And => {
                        if !lhs {
                            false
                        } else {
                            op.rhs.process(s)
                        }
                    },
                    SearchOperator::Or => {
                        if lhs {
                            true
                        } else {
                            op.rhs.process(s)
                        }
                    },
                }
            },
        };
        self.inverted != base
    }
}

#[derive(Debug, PartialEq, Eq, Hash, Clone, Copy, PartialOrd, Ord, Structural)]
pub enum SearchField {
    Name,
    Path,
    Content,
}

impl SearchField {
    /// The field a word before `<` selects; words that name no field leave
    /// the scope on its default.
    pub fn from_string(value: &str) -> (r: Option<Self>)
        ensures
            r == spec_field_of(value@),
    {
        proof {
            reveal_strlit("name");
            reveal_strlit("content");
            reveal_strlit("path");
        }
        if str_eq(value, "name") {
            Some(SearchField::Name)
        } else if str_eq(value, "content") {
            Some(SearchField::Content)
        } else if str_eq(value, "path") {
            Some(SearchField::Path)
        } else {
            None
        }
    }
}

pub open spec fn spec_field_of(w: Seq<char>) -> Option<SearchField> {
    if w == "name"@ {
        Some(SearchField::Name)
    } else if w == "content"@ {
        Some(SearchField::Content)
    } else if w == "path"@ {
        Some(SearchField::Path)
    } else {
        None
    }
}

/// One optional expression per field; a missing expression leaves that
/// field unconstrained.
#[derive(Debug, PartialEq, Default)]
pub struct SearchParams {
    pub name: Option<SearchExpr>,
    pub path: Option<SearchExpr>,
    pub content: Option<SearchExpr>,
}

/// The mathematical form of a [`SearchParams`].
pub struct ParamsModel {
    pub name: Option<ExprModel>,
    pub path: Option<ExprModel>,
    pub content: Option<ExprModel>,
}

pub open spec fn opt_expr_model(e: Option<SearchExpr>) -> Option<ExprModel> {
    match e {
        Some(x) => Some(expr_model(x)),
        None => None,
    }
}

impl View for SearchParams {
    type V = ParamsModel;

    open spec fn view(&self) -> ParamsModel {
        ParamsModel {
            name: opt_expr_model(self.name),
            path: opt_expr_model(self.path),
            content: opt_expr_model(self.content),
        }
    }
}

/// An absent constraint is satisfied; a present one must hold of the
/// subject.
pub open spec fn spec_field_ok(e: Option<ExprModel>, subject: Seq<char>) -> bool {
    match e {
        None => true,
        Some(x) => spec_eval(x, subject),
    }
}

/// The content rule: only leaves are ever read, a node with children
/// satisfies any content constraint outright, and a leaf whose content
/// cannot be read fails the constraint rather than erroring.
pub open spec fn spec_content_ok(e: Option<ExprModel>, is_leaf: bool, content: Option<
    Seq<char>,
>) -> bool {
    match e {
        None => true,
        Some(x) => !is_leaf || match content {
            Some(t) => spec_eval(x, t),
            None => false,
        },
    }
}

/// All present constraints hold of the node described by `name`, `path`,
/// `is_leaf` and `content`.
pub open spec fn spec_params_match(
    p: ParamsModel,
    name: Seq<char>,
    path: Seq<char>,
    is_leaf: bool,
    content: Option<Seq<char>>,
) -> bool {
    &&& spec_field_ok(p.name, name)
    &&& spec_field_ok(p.path, path)
    &&& spec_content_ok(p.content, is_leaf, content)
}

pub open spec fn opt_str_view(s: Option<&str>) -> Option<Seq<char>> {
    match s {
        Some(x) => Some(x@),
        None => None,
    }
}

/// Strips any content constraint from a query.
pub open spec fn spec_without_content(p: ParamsModel) -> ParamsModel {
    ParamsModel { name: p.name, path: p.path, content: None }
}

/// A node with children satisfies a query exactly when it satisfies the
/// same query with the content constraint removed: directories are never
/// opened for reading, whatever their content constraint says.
pub proof fn lemma_content_skips_directories(
    p: ParamsModel,
    name: Seq<char>,
    path: Seq<char>,
    content: Option<Seq<char>>,
)
    ensures
        spec_params_match(p, name, path, false, content) == spec_params_match(
            spec_without_content(p),
            name,
            path,
            false,
            content,
        ),
{
}

impl SearchParams {
    /// Tokenizes and parses query text into the per-field query.
    pub fn from_str(s: &str) -> (r: CaverResult<SearchParams>)
        ensures
            match r {
                Ok(p) => Some(p@) == spec_parse_params(spec_tokenize(s@)),
                Err(e) => spec_parse_params(spec_tokenize(s@)) is None && e is ParseError,
            },
    {
        let mut tokenizer = SearchParamsTokenizer::new(s);
        let toks = tokenizer.tokens();
        proof {
            assert(s@.skip(0) =~= s@);
        }
        SearchParams::parse(toks)
    }

    /// Decides whether one node matches, given its display name, its full
    /// path, whether it is a leaf, and — for leaves under a content
    /// constraint — the node's content, if it could be read.
    pub fn process(&self, name: &str, path: &str, is_leaf: bool, content: Option<&str>) -> (r:
        bool)
        ensures
            r == spec_params_match(self@, name@, path@, is_leaf, opt_str_view(content)),
    {
        if let Some(name_expr) = &self.name {
            if !name_expr.process(name) {
                return false;
            }
        }
        if let Some(path_expr) = &self.path {
            if !path_expr.process(path) {
                return false;
            }
        }
        if let Some(content_expr) = &self.content {
            if is_leaf {
                match content {
                    Some(text) => {
                        if !content_expr.process(text) {
                            return false;
                        }
                    },
                    None => {
                        return false;
                    },
                }
            }
        }
        true
    }
}

} // verus!
