use star_normal::canon::{ss, ssnf};
use star_normal::parser::Parser;
use star_normal::render::render;
use star_normal::tree::Regex;

fn lit(s: &str, parenthesized: bool) -> Regex {
    Regex::Literal { text: s.chars().collect(), parenthesized }
}

fn parse(expr: &str) -> Regex {
    let mut parser = Parser::default();
    parser.parse(expr).expect("the pattern should parse")
}

fn text(t: &Regex) -> String {
    render(t).into_iter().collect()
}

#[test]
fn normalize_flattens_and_sorts_alternation() {
    let raw = parse("(c|b)|a");
    let canonical = ssnf(raw);
    let expected = Regex::Alternation {
        branches: vec![lit("a", false), lit("b", false), lit("c", false)],
        nullable: false,
    };
    assert_eq!(expected, canonical);
}

#[test]
fn normalize_sorts_without_deduplication() {
    let raw = parse("b|a|b");
    let canonical = ssnf(raw);
    let expected = Regex::Alternation {
        branches: vec![lit("a", false), lit("b", false), lit("b", false)],
        nullable: false,
    };
    assert_eq!(expected, canonical);
}

#[test]
fn nullable_concatenation_under_star_becomes_union() {
    let raw = parse("(a*b*)*");
    let canonical = ssnf(raw);
    let expected = Regex::Repetition {
        body: Box::new(Regex::Alternation {
            branches: vec![lit("a", false), lit("b", false)],
            nullable: false,
        }),
    };
    assert_eq!(expected, canonical);
    assert_eq!("(a|b)*", text(&canonical));
}

#[test]
fn non_nullable_concatenation_under_star_is_kept() {
    let raw = parse("(a(b)*)*");
    let canonical = ssnf(raw);
    let expected = Regex::Repetition {
        body: Box::new(Regex::Concatenation {
            factors: vec![
                lit("a", false),
                Regex::Repetition { body: Box::new(lit("b", true)) },
            ],
            nullable: false,
            parenthesized: true,
        }),
    };
    assert_eq!(expected, canonical);
    assert_eq!("(a(b)*)*", text(&canonical));
}

#[test]
fn nested_star_collapses() {
    let raw = parse("((ab)*)*");
    let canonical = ssnf(raw);
    let expected = Regex::Repetition { body: Box::new(lit("ab", true)) };
    assert_eq!(expected, canonical);
    assert_eq!("(ab)*", text(&canonical));
}

#[test]
fn star_simplify_strips_inner_stars_in_union() {
    let raw = parse("b*|a");
    let simplified = ss(raw);
    let expected = Regex::Alternation {
        branches: vec![lit("a", false), lit("b", false)],
        nullable: false,
    };
    assert_eq!(expected, simplified);
}

#[test]
fn normalize_is_idempotent_on_sample() {
    let raw = parse("(c|(a*b*)*)|(ba)*x");
    let once = ssnf(raw);
    let raw_again = parse("(c|(a*b*)*)|(ba)*x");
    let twice = ssnf(ssnf(raw_again));
    assert_eq!(once, twice);
}

#[test]
fn normalize_preserves_nullability_on_sample() {
    let raw = parse("(a*b*)c|d*");
    let before = raw.is_nullable();
    let canonical = ssnf(raw);
    assert_eq!(before, canonical.is_nullable());
    assert!(canonical.is_nullable());
}

#[test]
fn render_round_trip_on_samples() {
    let samples = ["abc", "abc|cde", "abc(cde)efg", "(abc)*", "(abc)*(cde)", "a*b*c", "(a|b)c"];
    let mut k = 0;
    while k < samples.len() {
        let expr = samples[k];
        let tree = parse(expr);
        let rendered = text(&tree);
        let reparsed = parse(rendered.as_str());
        assert_eq!(tree, reparsed);
        assert_eq!(expr, rendered.as_str());
        k += 1;
    }
}

#[test]
fn render_parenthesizes_star_of_literal_run() {
    let tree = parse("qa*");
    let expected = Regex::Repetition { body: Box::new(lit("qa", false)) };
    assert_eq!(expected, tree);
    assert_eq!("(qa)*", text(&tree));
}

#[test]
fn canonical_text_of_mixed_pattern() {
    let raw = parse("(abc)*((cde)|(edf))**|(qrp)");
    let canonical = ssnf(raw);
    assert_eq!("(abc)*((cde)|(edf))*|(qrp)", text(&canonical));
}
