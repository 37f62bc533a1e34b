use star_normal::parser::{ParseError, Parser};
use star_normal::tree::Regex;

fn lit(s: &str, parenthesized: bool) -> Regex {
    Regex::Literal { text: s.chars().collect(), parenthesized }
}

#[test]
fn basic_const_test() {
    let expr = "test_regex";
    let mut parser = Parser::default();

    let res = parser.parse(expr);
    let expected = lit("test_regex", false);
    assert_eq!(Ok(expected), res);
}

#[test]
fn basic_alternative_test() {
    let expr = "abc|cde";
    let mut parser = Parser::default();

    let res = parser.parse(expr);

    let expected = Regex::Alternation {
        branches: vec![lit("abc", false), lit("cde", false)],
        nullable: false,
    };
    assert_eq!(Ok(expected), res);
}

#[test]
fn basic_concat_test() {
    let expr = "abc(cde)efg";
    let mut parser = Parser::default();

    let res = parser.parse(expr);
    let expected = Regex::Concatenation {
        factors: vec![lit("abc", false), lit("cde", true), lit("efg", false)],
        nullable: false,
        parenthesized: false,
    };
    assert_eq!(Ok(expected), res);
}

#[test]
fn basic_star_test() {
    let expr = "(abc)*";
    let mut parser = Parser::default();

    let res = parser.parse(expr);
    let expected = Regex::Repetition { body: Box::new(lit("abc", true)) };

    assert_eq!(Ok(expected), res);
}

#[test]
fn concat_with_star() {
    let expr = "(abc)*(cde)";
    let mut parser = Parser::default();

    let res = parser.parse(expr);
    let expected = Regex::Concatenation {
        factors: vec![
            Regex::Repetition { body: Box::new(lit("abc", true)) },
            lit("cde", true),
        ],
        nullable: false,
        parenthesized: false,
    };
    assert_eq!(Ok(expected), res);
}

#[test]
fn star_concat_both_nullable() {
    let expr = "(ab)*(cd)*";
    let mut parser = Parser::default();

    let res = parser.parse(expr);
    let expected = Regex::Concatenation {
        factors: vec![
            Regex::Repetition { body: Box::new(lit("ab", true)) },
            Regex::Repetition { body: Box::new(lit("cd", true)) },
        ],
        nullable: true,
        parenthesized: false,
    };
    assert_eq!(Ok(expected), res);
}

#[test]
fn star_attaches_to_last_factor() {
    let expr = "a*b*c";
    let mut parser = Parser::default();

    let res = parser.parse(expr);
    let expected = Regex::Concatenation {
        factors: vec![
            Regex::Repetition { body: Box::new(lit("a", false)) },
            Regex::Repetition { body: Box::new(lit("b", false)) },
            lit("c", false),
        ],
        nullable: false,
        parenthesized: false,
    };
    assert_eq!(Ok(expected), res);
}

#[test]
fn consecutive_stars_collapse() {
    let expr = "(abc)**";
    let mut parser = Parser::default();

    let res = parser.parse(expr);
    let expected = Regex::Repetition { body: Box::new(lit("abc", true)) };
    assert_eq!(Ok(expected), res);
}

#[test]
fn nested_alternation_is_spliced() {
    let expr = "(a|b)|c";
    let mut parser = Parser::default();

    let res = parser.parse(expr);
    let expected = Regex::Alternation {
        branches: vec![lit("a", false), lit("b", false), lit("c", false)],
        nullable: false,
    };
    assert_eq!(Ok(expected), res);
}

#[test]
fn unclosed_group_fails_at_end() {
    let expr = "(abc";
    let mut parser = Parser::default();

    let res = parser.parse(expr);
    let expected = ParseError::UnexpectedToken { expected: Some(')'), found: None, offset: 4 };
    assert_eq!(Err(expected), res);
}

#[test]
fn leading_star_fails_at_offset_zero() {
    let expr = "*abc";
    let mut parser = Parser::default();

    let res = parser.parse(expr);
    let expected = ParseError::EmptyOperand { offset: 0 };
    assert_eq!(Err(expected), res);
}

#[test]
fn unmatched_closing_paren_fails() {
    let expr = "ab)cd";
    let mut parser = Parser::default();

    let res = parser.parse(expr);
    let expected = ParseError::UnexpectedToken { expected: None, found: Some(')'), offset: 2 };
    assert_eq!(Err(expected), res);
}

#[test]
fn empty_alternation_branch_fails() {
    let expr = "a|";
    let mut parser = Parser::default();

    let res = parser.parse(expr);
    let expected = ParseError::EmptyOperand { offset: 2 };
    assert_eq!(Err(expected), res);
}

#[test]
fn empty_group_fails() {
    let expr = "()";
    let mut parser = Parser::default();

    let res = parser.parse(expr);
    let expected = ParseError::EmptyOperand { offset: 1 };
    assert_eq!(Err(expected), res);
}

#[test]
fn nullability_by_direct_construction() {
    let leaf = lit("ab", false);
    assert!(!leaf.is_nullable());

    let star = Regex::Repetition { body: Box::new(lit("ab", false)) };
    assert!(star.is_nullable());

    let alt = Regex::Alternation {
        branches: vec![
            lit("a", false),
            Regex::Repetition { body: Box::new(lit("b", false)) },
        ],
        nullable: true,
    };
    assert!(alt.is_nullable());

    let cat = Regex::Concatenation {
        factors: vec![
            Regex::Repetition { body: Box::new(lit("a", false)) },
            lit("b", false),
        ],
        nullable: false,
        parenthesized: false,
    };
    assert!(!cat.is_nullable());
}

#[test]
fn deeply_nested_group_degrades_to_literal() {
    let expr = "((((a))))";
    let mut parser = Parser::default();

    let res = parser.parse(expr);
    let expected = lit("a", true);
    assert_eq!(Ok(expected), res);
}

#[test]
fn literal_runs_may_hold_any_ordinary_characters() {
    let expr = "ab c-1_^$.\u{3b1}\u{3b2}|x";
    let mut parser = Parser::default();

    let res = parser.parse(expr);
    let expected = Regex::Alternation {
        branches: vec![lit("ab c-1_^$.\u{3b1}\u{3b2}", false), lit("x", false)],
        nullable: false,
    };
    assert_eq!(Ok(expected), res);
}
