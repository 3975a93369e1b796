use caver::search::token::{Opening, SearchParamsToken, SearchParamsTokenizer};
use caver::search::{
    SearchExpr, SearchExprValue, SearchOperation, SearchOperator, SearchParams,
};

fn val(s: &str) -> SearchExpr {
    SearchExpr { expr: SearchExprValue::Value(s.to_string()), inverted: false }
}

fn val_inv(s: &str) -> SearchExpr {
    SearchExpr { expr: SearchExprValue::Value(s.to_string()), inverted: true }
}

fn op(operation: SearchOperator, lhs: SearchExpr, rhs: SearchExpr, inverted: bool) -> SearchExpr {
    SearchExpr {
        expr: SearchExprValue::Operation(Box::new(SearchOperation { operation, lhs, rhs })),
        inverted,
    }
}

#[test]
fn hard_search_parse() {
    let input = "some ?(word | ?and) other content?<this | ?that woaw>";
    let search_params = SearchParams::from_str(input).unwrap();

    // Name scope: `some ?(word | ?and) other` — the `?` inverts the whole
    // primary that follows it, which chains the group with `other`.
    let group = op(SearchOperator::Or, val("word"), val_inv("and"), false);
    let negated = op(SearchOperator::And, group, val("other"), true);
    let name = op(SearchOperator::And, val("some"), negated, false);

    // Content scope: `this | ?that woaw`; the scope's own invert flag is
    // dropped because the field had no earlier expression.
    let rhs = op(SearchOperator::And, val("that"), val("woaw"), true);
    let content = op(SearchOperator::Or, val("this"), rhs, false);

    let expected = SearchParams { name: Some(name), path: None, content: Some(content) };
    assert_eq!(search_params, expected);
}

#[test]
fn easy_search_parse() {
    let input = "some | is and content<this|that woaw>";
    let search_params = SearchParams::from_str(input).unwrap();

    let name = op(
        SearchOperator::Or,
        val("some"),
        op(SearchOperator::And, val("is"), val("and"), false),
        false,
    );
    let content = op(
        SearchOperator::Or,
        val("this"),
        op(SearchOperator::And, val("that"), val("woaw"), false),
        false,
    );

    let expected = SearchParams { name: Some(name), path: None, content: Some(content) };
    assert_eq!(search_params, expected);
}

#[test]
fn adjacent_words_are_and() {
    let p = SearchParams::from_str("a b").unwrap();
    let expected = op(SearchOperator::And, val("a"), val("b"), false);
    assert_eq!(p.name, Some(expected));
    assert_eq!(p.path, None);
    assert_eq!(p.content, None);
}

#[test]
fn pipe_is_or() {
    let p = SearchParams::from_str("a | b").unwrap();
    let expected = op(SearchOperator::Or, val("a"), val("b"), false);
    assert_eq!(p.name, Some(expected));
}

#[test]
fn and_binds_tighter_than_or() {
    let p = SearchParams::from_str("a b | c").unwrap();
    let expected = op(
        SearchOperator::Or,
        op(SearchOperator::And, val("a"), val("b"), false),
        val("c"),
        false,
    );
    assert_eq!(p.name, Some(expected));
}

#[test]
fn not_covers_following_and_chain() {
    let p = SearchParams::from_str("?a b").unwrap();
    let expected = op(SearchOperator::And, val("a"), val("b"), true);
    assert_eq!(p.name, Some(expected));
}

#[test]
fn field_routing_to_content() {
    let p = SearchParams::from_str("content<foo>").unwrap();
    assert_eq!(p.content, Some(val("foo")));
    assert_eq!(p.name, None);
    assert_eq!(p.path, None);
}

#[test]
fn double_negation_parses_to_plain_value() {
    let p = SearchParams::from_str("??a").unwrap();
    assert_eq!(p.name, Some(val("a")));
}

#[test]
fn double_negation_evaluates_like_unnegated() {
    let doubled = SearchParams::from_str("??a").unwrap().name.unwrap();
    let plain = SearchParams::from_str("a").unwrap().name.unwrap();
    for subject in ["a", "bab", "xyz", ""] {
        assert_eq!(doubled.process(subject), plain.process(subject));
    }
}

#[test]
fn same_field_twice_combines_with_and_in_order() {
    let p = SearchParams::from_str("name<foo> name<bar>").unwrap();
    let expected = op(SearchOperator::And, val("foo"), val("bar"), false);
    assert_eq!(p.name, Some(expected));
    assert_eq!(p.path, None);
    assert_eq!(p.content, None);
}

#[test]
fn tokenizer_discards_colon() {
    let mut tok = SearchParamsTokenizer::new("a:b");
    let tokens = tok.tokens();
    assert_eq!(
        tokens,
        vec![
            SearchParamsToken::Word("a".to_string()),
            SearchParamsToken::Word("b".to_string()),
        ]
    );
}

#[test]
fn tokenizer_specials_and_words() {
    let mut tok = SearchParamsTokenizer::new("ab |(cd)? <e> \\*\"/x");
    let tokens = tok.tokens();
    assert_eq!(
        tokens,
        vec![
            SearchParamsToken::Word("ab".to_string()),
            SearchParamsToken::Or,
            SearchParamsToken::Paren(Opening::Opened),
            SearchParamsToken::Word("cd".to_string()),
            SearchParamsToken::Paren(Opening::Closed),
            SearchParamsToken::Inverter,
            SearchParamsToken::Delimiter(Opening::Opened),
            SearchParamsToken::Word("e".to_string()),
            SearchParamsToken::Delimiter(Opening::Closed),
            SearchParamsToken::Word("x".to_string()),
        ]
    );
}

#[test]
fn unmatched_open_paren_is_an_error() {
    assert!(SearchParams::from_str("(a").is_err());
}

#[test]
fn unmatched_close_paren_is_an_error() {
    assert!(SearchParams::from_str("a)").is_err());
}

#[test]
fn empty_group_is_an_error() {
    assert!(SearchParams::from_str("()").is_err());
}

#[test]
fn empty_query_constrains_nothing() {
    let p = SearchParams::from_str("").unwrap();
    assert_eq!(p, SearchParams { name: None, path: None, content: None });
}

#[test]
fn unclosed_field_scope_still_parses() {
    let p = SearchParams::from_str("path<x").unwrap();
    assert_eq!(p.path, Some(val("x")));
}

#[test]
fn unrecognized_field_word_stays_in_enclosing_scope() {
    // `foo` names no field, so it stays put and is ANDed into the Name
    // constraint when the outer scope flushes; the `<...>` scope itself
    // targets Name by default. The scope closes first, so its expression
    // is the earlier one.
    let p = SearchParams::from_str("foo<bar>").unwrap();
    let expected = op(SearchOperator::And, val("bar"), val("foo"), false);
    assert_eq!(p.name, Some(expected));
}
