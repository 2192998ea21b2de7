//! An HTML static-analysis core: an indexed document model with a
//! CSS-like selector query engine.
//!
//! The crate indexes one immutable parsed document per
//! [`index::DOMIndex`]: an arena of nodes addressed by stable integer
//! indices, side indices by tag, id and class, an interning symbol
//! table, a source map, and a memoizing selector cache.  Selector
//! strings are compiled by a pure parser ([`parser::parse_selector`])
//! and executed against the index ([`index::DOMIndex::query`]),
//! yielding a sorted, deduplicated sequence of node indices.
//!
//! The rule catalogue that consumes `query` — regex content checks,
//! meta-tag validation and the like — is a separate, unverified
//! consumer of this engine; this crate holds the rule and diagnostic
//! data types it exchanges.

pub mod cache;
pub mod dom;
pub mod index;
pub mod interner;
pub mod laws;
pub mod parser;
pub mod selector;
pub mod sem;
pub mod srcmap;
pub mod text;
pub mod util;

use vstd::prelude::*;

verus! {

/// How severe a reported finding is.
#[derive(Clone, Copy, PartialEq, Eq, Structural, Debug)]
pub enum Severity {
    Error,
    Warning,
    Info,
}

/// The kind of check a rule performs.
#[derive(Debug, PartialEq, Eq)]
pub enum RuleType {
    ElementPresence,
    AttributePresence,
    AttributeValue,
    ElementOrder,
    TextContent,
    ElementContent,
    WhiteSpace,
    Nesting,
    Semantics,
    Compound,
    Custom(String),
    DocumentStructure,
    ElementCount,
    ElementCase,
    AttributeQuotes,
}

/// Spec-level form of [`RuleType`].
#[verifier::ext_equal]
pub enum RuleTypeView {
    ElementPresence,
    AttributePresence,
    AttributeValue,
    ElementOrder,
    TextContent,
    ElementContent,
    WhiteSpace,
    Nesting,
    Semantics,
    Compound,
    Custom(Seq<char>),
    DocumentStructure,
    ElementCount,
    ElementCase,
    AttributeQuotes,
}

impl View for RuleType {
    type V = RuleTypeView;

    open spec fn view(&self) -> RuleTypeView {
        match self {
            RuleType::ElementPresence => RuleTypeView::ElementPresence,
            RuleType::AttributePresence => RuleTypeView::AttributePresence,
            RuleType::AttributeValue => RuleTypeView::AttributeValue,
            RuleType::ElementOrder => RuleTypeView::ElementOrder,
            RuleType::TextContent => RuleTypeView::TextContent,
            RuleType::ElementContent => RuleTypeView::ElementContent,
            RuleType::WhiteSpace => RuleTypeView::WhiteSpace,
            RuleType::Nesting => RuleTypeView::Nesting,
            RuleType::Semantics => RuleTypeView::Semantics,
            RuleType::Compound => RuleTypeView::Compound,
            RuleType::Custom(s) => RuleTypeView::Custom(s@),
            RuleType::DocumentStructure => RuleTypeView::DocumentStructure,
            RuleType::ElementCount => RuleTypeView::ElementCount,
            RuleType::ElementCase => RuleTypeView::ElementCase,
            RuleType::AttributeQuotes => RuleTypeView::AttributeQuotes,
        }
    }
}

impl Clone for RuleType {
    /// Clones preserve the view.
    fn clone(&self) -> (r: Self)
        ensures
            r@ == self@,
    {
        match self {
            RuleType::ElementPresence => RuleType::ElementPresence,
            RuleType::AttributePresence => RuleType::AttributePresence,
            RuleType::AttributeValue => RuleType::AttributeValue,
            RuleType::ElementOrder => RuleType::ElementOrder,
            RuleType::TextContent => RuleType::TextContent,
            RuleType::ElementContent => RuleType::ElementContent,
            RuleType::WhiteSpace => RuleType::WhiteSpace,
            RuleType::Nesting => RuleType::Nesting,
            RuleType::Semantics => RuleType::Semantics,
            RuleType::Compound => RuleType::Compound,
            RuleType::Custom(s) => RuleType::Custom(clone_string(s)),
            RuleType::DocumentStructure => RuleType::DocumentStructure,
            RuleType::ElementCount => RuleType::ElementCount,
            RuleType::ElementCase => RuleType::ElementCase,
            RuleType::AttributeQuotes => RuleType::AttributeQuotes,
        }
    }
}

/// A copy of a string with an equal view.
pub fn clone_string(s: &String) -> (r: String)
    ensures
        r@ == s@,
{
    crate::text::chars_to_string(&crate::text::chars_of(s.as_str()))
}

fn clone_string_pairs(v: &Vec<(String, String)>) -> (r: Vec<(String, String)>)
    ensures
        r@.len() == v@.len(),
        forall|i: int|
            0 <= i < v@.len() ==> (#[trigger] r@[i]).0@ == v@[i].0@ && r@[i].1@ == v@[i].1@,
{
    let mut r: Vec<(String, String)> = Vec::new();
    let mut i: usize = 0;
    while i < v.len()
        invariant
            i <= v@.len(),
            r@.len() == i,
            forall|j: int|
                0 <= j < i ==> (#[trigger] r@[j]).0@ == v@[j].0@ && r@[j].1@ == v@[j].1@,
        decreases v@.len() - i,
    {
        r.push((clone_string(&v[i].0), clone_string(&v[i].1)));
        i += 1;
    }
    r
}

/// One configured rule: what to select and what to check on it.
#[derive(Debug, PartialEq, Eq)]
pub struct Rule {
    pub name: String,
    pub rule_type: RuleType,
    pub severity: Severity,
    /// CSS-like selector choosing the nodes the rule inspects.
    pub selector: String,
    /// Rule-specific condition keyword.
    pub condition: String,
    /// The message reported when the rule fires.
    pub message: String,
    /// Additional rule options, as ordered key/value pairs.
    pub options: Vec<(String, String)>,
}

/// Spec-level form of [`Rule`].
#[verifier::ext_equal]
pub struct RuleView {
    pub name: Seq<char>,
    pub rule_type: RuleTypeView,
    pub severity: Severity,
    pub selector: Seq<char>,
    pub condition: Seq<char>,
    pub message: Seq<char>,
    pub options: Seq<(Seq<char>, Seq<char>)>,
}

impl View for Rule {
    type V = RuleView;

    open spec fn view(&self) -> RuleView {
        RuleView {
            name: self.name@,
            rule_type: self.rule_type@,
            severity: self.severity,
            selector: self.selector@,
            condition: self.condition@,
            message: self.message@,
            options: self.options@.map_values(|p: (String, String)| (p.0@, p.1@)),
        }
    }
}

impl Clone for Rule {
    /// Clones preserve the view.
    fn clone(&self) -> (r: Self)
        ensures
            r@ == self@,
    {
        let r = Rule {
            name: clone_string(&self.name),
            rule_type: self.rule_type.clone(),
            severity: self.severity,
            selector: clone_string(&self.selector),
            condition: clone_string(&self.condition),
            message: clone_string(&self.message),
            options: clone_string_pairs(&self.options),
        };
        proof {
            assert(r@.options =~= self@.options);
            assert(r@ =~= self@);
        }
        r
    }
}

/// Where a finding was located in the document.
#[derive(Debug, Clone)]
pub struct Location {
    pub line: usize,
    pub column: usize,
    pub element: String,
}

/// One reported finding.
#[derive(Debug, Clone)]
pub struct LintResult {
    pub rule: String,
    pub severity: Severity,
    pub message: String,
    pub location: Location,
    pub source: String,
}

/// Options governing a linting run.
#[derive(Debug)]
pub struct LinterOptions {
    /// Rule-name patterns to skip.
    pub ignore_files: Vec<String>,
    /// Extra named selectors, as ordered key/value pairs.
    pub custom_selectors: Vec<(String, String)>,
    pub max_line_length: Option<usize>,
    pub allow_inline_styles: bool,
}

impl LinterOptions {
    /// All options off: nothing ignored, nothing custom.
    pub open spec fn is_default(&self) -> bool {
        &&& self.ignore_files@.len() == 0
        &&& self.custom_selectors@.len() == 0
        &&& self.max_line_length is None
        &&& self.allow_inline_styles == false
    }
}

impl Default for LinterOptions {
    /// The default options: everything off.
    fn default() -> (r: Self)
        ensures
            r.is_default(),
    {
        LinterOptions {
            ignore_files: Vec::new(),
            custom_selectors: Vec::new(),
            max_line_length: None,
            allow_inline_styles: false,
        }
    }
}

/// One condition of a compound rule.
#[derive(Debug)]
pub enum CompoundCondition {
    TextContent { pattern: String },
    AttributeValue { attribute: String, pattern: String },
    AttributeReference { attribute: String, reference_must_exist: bool },
    ElementPresence { selector: String },
}

/// Why a linter-level operation failed.
#[derive(Debug, PartialEq, Eq)]
pub enum LinterError {
    /// The document or a configuration could not be parsed.
    ParseError(String),
    /// A rule was malformed or failed while running.
    RuleError(String),
    /// A rule's selector was rejected by the selector parser.
    SelectorError(String),
    /// An input could not be read.
    IoError(String),
}

/// The rule-driven linter: a set of rules and the options of the run.
/// Parsing documents and executing the rule catalogue happen in the
/// surrounding application; this type owns the configuration.
pub struct HtmlLinter {
    rules: Vec<Rule>,
    options: LinterOptions,
}

impl HtmlLinter {
    /// The configured rules.
    pub closed spec fn rules_spec(&self) -> Seq<Rule> {
        self.rules@
    }

    /// The options of the run.
    pub closed spec fn options_spec(&self) -> LinterOptions {
        self.options
    }

    /// A linter over these rules; absent options mean the defaults.
    pub fn new(rules: Vec<Rule>, options: Option<LinterOptions>) -> (r: HtmlLinter)
        ensures
            r.rules_spec() == rules@,
            match options {
                Some(o) => r.options_spec() == o,
                None => r.options_spec().is_default(),
            },
    {
        let options = match options {
            Some(o) => o,
            None => Default::default(),
        };
        HtmlLinter { rules, options }
    }

    /// A copy of the configured rules, view for view.
    pub fn get_rules(&self) -> (r: Vec<Rule>)
        ensures
            r@.len() == self.rules_spec().len(),
            forall|i: int| 0 <= i < r@.len() ==> (#[trigger] r@[i])@ == self.rules_spec()[i]@,
    {
        let mut r: Vec<Rule> = Vec::new();
        let mut i: usize = 0;
        while i < self.rules.len()
            invariant
                i <= self.rules@.len(),
                r@.len() == i,
                forall|j: int| 0 <= j < i ==> (#[trigger] r@[j])@ == self.rules@[j]@,
            decreases self.rules@.len() - i,
        {
            r.push(self.rules[i].clone());
            i += 1;
        }
        r
    }

    /// Read access to the options of the run.
    pub fn options(&self) -> (r: &LinterOptions)
        ensures
            r == self.options_spec(),
    {
        &self.options
    }
}

} // verus!
