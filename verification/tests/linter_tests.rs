//! Linter configuration types.

use html_linter::{HtmlLinter, LinterOptions, Rule, RuleType, Severity};

fn sample_rules() -> Vec<Rule> {
    vec![Rule {
        name: "img-alt".to_string(),
        rule_type: RuleType::AttributePresence,
        severity: Severity::Error,
        selector: "img".to_string(),
        condition: "alt-missing".to_string(),
        message: "Image must have alt attribute".to_string(),
        options: Vec::new(),
    }]
}

#[test]
fn test_linter_new_and_get_rules() {
    let linter = HtmlLinter::new(sample_rules(), None);
    let rules = linter.get_rules();
    assert_eq!(rules, sample_rules());
    assert!(linter.options().ignore_files.is_empty());
    assert!(!linter.options().allow_inline_styles);
}

#[test]
fn test_linter_options_kept() {
    let options = LinterOptions {
        ignore_files: vec!["seo-.*".to_string()],
        custom_selectors: Vec::new(),
        max_line_length: Some(100),
        allow_inline_styles: true,
    };
    let linter = HtmlLinter::new(Vec::new(), Some(options));
    assert_eq!(linter.options().max_line_length, Some(100));
    assert!(linter.options().allow_inline_styles);
    assert_eq!(linter.options().ignore_files, vec!["seo-.*".to_string()]);
}

#[test]
fn test_compound_rule() {
    // Add more comprehensive tests
}
