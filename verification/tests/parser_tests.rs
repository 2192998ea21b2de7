//! Selector parser behavior: structure, specificity, and syntax errors.

use html_linter::parser::{parse_selector, SelectorSyntaxError};
use html_linter::selector::{AttributeSelector, Combinator, PseudoClass, Selector};

fn chars(s: &str) -> Vec<char> {
    s.chars().collect()
}

fn parse_ok(s: &str) -> Selector {
    parse_selector(s).expect("selector should parse")
}

#[test]
fn test_specificity_id() {
    let sel = parse_ok("#x");
    assert_eq!(sel.alternatives.len(), 1);
    let part = &sel.alternatives[0].parts[0];
    assert_eq!(
        (
            part.specificity.ids,
            part.specificity.classes_attrs,
            part.specificity.elements
        ),
        (1, 0, 0)
    );
}

#[test]
fn test_specificity_class() {
    let sel = parse_ok(".y");
    let part = &sel.alternatives[0].parts[0];
    assert_eq!(
        (
            part.specificity.ids,
            part.specificity.classes_attrs,
            part.specificity.elements
        ),
        (0, 1, 0)
    );
}

#[test]
fn test_specificity_element() {
    let sel = parse_ok("div");
    let part = &sel.alternatives[0].parts[0];
    assert_eq!(
        (
            part.specificity.ids,
            part.specificity.classes_attrs,
            part.specificity.elements
        ),
        (0, 0, 1)
    );
}

#[test]
fn test_specificity_compound() {
    let sel = parse_ok("div.y");
    let part = &sel.alternatives[0].parts[0];
    assert_eq!(
        (
            part.specificity.ids,
            part.specificity.classes_attrs,
            part.specificity.elements
        ),
        (0, 1, 1)
    );
}

#[test]
fn test_parse_twice_structurally_equal() {
    let a = parse_ok("div.a > p:first-child, #x[href^='http']");
    let b = parse_ok("div.a > p:first-child, #x[href^='http']");
    assert_eq!(a, b);
}

#[test]
fn test_parse_universal() {
    let sel = parse_ok("*");
    assert_eq!(sel.alternatives.len(), 1);
    let part = &sel.alternatives[0].parts[0];
    assert!(part.element.is_none());
    assert!(part.id.is_none());
    assert!(part.classes.is_empty());
    assert!(part.attributes.is_empty());
    assert!(part.pseudo_classes.is_empty());
}

#[test]
fn test_parse_combinator_chain() {
    let sel = parse_ok("div > p + a ~ b c");
    assert_eq!(sel.alternatives.len(), 1);
    let alt = &sel.alternatives[0];
    assert_eq!(alt.parts.len(), 5);
    assert_eq!(
        alt.combinators,
        vec![
            Combinator::Child,
            Combinator::Adjacent,
            Combinator::GeneralSibling,
            Combinator::Descendant
        ]
    );
    assert_eq!(alt.parts[0].element, Some(chars("div")));
    assert_eq!(alt.parts[4].element, Some(chars("c")));
}

#[test]
fn test_parse_attribute_operators() {
    let sel = parse_ok("[a=1][b^=2][c$=3][d*=4][e~=5][f|=6][g]");
    let part = &sel.alternatives[0].parts[0];
    assert_eq!(part.attributes.len(), 7);
    assert_eq!(
        part.attributes[0],
        AttributeSelector::Equals(chars("a"), chars("1"))
    );
    assert_eq!(
        part.attributes[1],
        AttributeSelector::StartsWith(chars("b"), chars("2"))
    );
    assert_eq!(
        part.attributes[2],
        AttributeSelector::EndsWith(chars("c"), chars("3"))
    );
    assert_eq!(
        part.attributes[3],
        AttributeSelector::Contains(chars("d"), chars("4"))
    );
    assert_eq!(
        part.attributes[4],
        AttributeSelector::ListContains(chars("e"), chars("5"))
    );
    assert_eq!(
        part.attributes[5],
        AttributeSelector::DashMatch(chars("f"), chars("6"))
    );
    assert_eq!(part.attributes[6], AttributeSelector::Exists(chars("g")));
}

#[test]
fn test_parse_quoted_attribute_values() {
    let sel = parse_ok("[a='x y'][b=\"z\"]");
    let part = &sel.alternatives[0].parts[0];
    assert_eq!(
        part.attributes[0],
        AttributeSelector::Equals(chars("a"), chars("x y"))
    );
    assert_eq!(
        part.attributes[1],
        AttributeSelector::Equals(chars("b"), chars("z"))
    );
}

#[test]
fn test_parse_nth_forms() {
    let sel = parse_ok(":nth-child(2n+1)");
    assert_eq!(
        sel.alternatives[0].parts[0].pseudo_classes[0],
        PseudoClass::NthChild(2, 1)
    );
    let sel = parse_ok(":nth-child(-n+3)");
    assert_eq!(
        sel.alternatives[0].parts[0].pseudo_classes[0],
        PseudoClass::NthChild(-1, 3)
    );
    let sel = parse_ok(":nth-child(3)");
    assert_eq!(
        sel.alternatives[0].parts[0].pseudo_classes[0],
        PseudoClass::NthChild(0, 3)
    );
    let sel = parse_ok(":nth-last-child(n)");
    assert_eq!(
        sel.alternatives[0].parts[0].pseudo_classes[0],
        PseudoClass::NthLastChild(1, 0)
    );
}

#[test]
fn test_parse_not() {
    let sel = parse_ok("li:not(.done)");
    match &sel.alternatives[0].parts[0].pseudo_classes[0] {
        PseudoClass::Not(inner) => {
            assert_eq!(inner.classes, vec![chars("done")]);
        }
        other => panic!("expected a negation, got {:?}", other),
    }
}

#[test]
fn test_parse_alternatives() {
    let sel = parse_ok("div, p , span");
    assert_eq!(sel.alternatives.len(), 3);
    assert_eq!(sel.alternatives[2].parts[0].element, Some(chars("span")));
}

#[test]
fn test_error_unterminated_attribute() {
    assert_eq!(
        parse_selector("[href"),
        Err(SelectorSyntaxError::UnterminatedAttribute)
    );
    assert_eq!(
        parse_selector("[a='x"),
        Err(SelectorSyntaxError::UnterminatedAttribute)
    );
}

#[test]
fn test_error_unknown_attribute_operator() {
    assert_eq!(
        parse_selector("[a^b]"),
        Err(SelectorSyntaxError::UnknownAttributeOperator)
    );
}

#[test]
fn test_error_empty_name() {
    assert_eq!(parse_selector("."), Err(SelectorSyntaxError::EmptyName));
    assert_eq!(parse_selector("#"), Err(SelectorSyntaxError::EmptyName));
    assert_eq!(parse_selector("[=x]"), Err(SelectorSyntaxError::EmptyName));
}

#[test]
fn test_error_unknown_pseudo_class() {
    assert_eq!(
        parse_selector(":hover"),
        Err(SelectorSyntaxError::UnknownPseudoClass)
    );
}

#[test]
fn test_error_unterminated_pseudo_class() {
    assert_eq!(
        parse_selector(":nth-child(2"),
        Err(SelectorSyntaxError::UnterminatedPseudoClass)
    );
    assert_eq!(
        parse_selector(":not(.a"),
        Err(SelectorSyntaxError::UnterminatedPseudoClass)
    );
}

#[test]
fn test_error_bad_nth_argument() {
    assert_eq!(
        parse_selector(":nth-child(x)"),
        Err(SelectorSyntaxError::BadNthArgument)
    );
    assert_eq!(
        parse_selector(":nth-child(odd)"),
        Err(SelectorSyntaxError::BadNthArgument)
    );
    assert_eq!(
        parse_selector(":nth-child()"),
        Err(SelectorSyntaxError::BadNthArgument)
    );
}

#[test]
fn test_error_invalid_not_argument() {
    assert_eq!(
        parse_selector(":not()"),
        Err(SelectorSyntaxError::InvalidNotArgument)
    );
    assert_eq!(
        parse_selector(":not(a b)"),
        Err(SelectorSyntaxError::InvalidNotArgument)
    );
}

#[test]
fn test_error_invalid_combinator() {
    assert_eq!(
        parse_selector("> div"),
        Err(SelectorSyntaxError::InvalidCombinator)
    );
    assert_eq!(
        parse_selector("div >"),
        Err(SelectorSyntaxError::InvalidCombinator)
    );
    assert_eq!(
        parse_selector("div > > p"),
        Err(SelectorSyntaxError::InvalidCombinator)
    );
}

#[test]
fn test_error_unexpected_char() {
    assert_eq!(
        parse_selector("div)"),
        Err(SelectorSyntaxError::UnexpectedChar)
    );
}

#[test]
fn test_empty_selector_matches_nothing() {
    let sel = parse_ok("");
    assert_eq!(sel.alternatives.len(), 0);
}
