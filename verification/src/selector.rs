//! The compiled form of a selector string: a set of alternative match
//! sequences (comma-separated groups), each an ordered list of compound
//! parts joined by combinators.  A compound part carries an optional
//! element name, an optional id, required classes, attribute predicates,
//! pseudo-class constraints, and its computed specificity.
//!
//! Selectors are immutable once parsed; [`crate::parser`] builds them and
//! pins them to a spec-level parse, and the query engine interprets them
//! against the document model.

use vstd::prelude::*;
use crate::text::clone_chars;

verus! {

/// Structural relation between two adjacent compound parts.
#[derive(Clone, Copy, PartialEq, Eq, Structural, Debug)]
pub enum Combinator {
    /// An ancestor at any distance (written as a space).
    Descendant,
    /// The immediate parent (written `>`).
    Child,
    /// The immediately preceding sibling (written `+`).
    Adjacent,
    /// Any earlier sibling (written `~`).
    GeneralSibling,
}

/// One attribute predicate of a compound part.
#[derive(Debug, PartialEq, Eq)]
pub enum AttributeSelector {
    /// `[attr]`
    Exists(Vec<char>),
    /// `[attr=value]`
    Equals(Vec<char>, Vec<char>),
    /// `[attr^=value]`
    StartsWith(Vec<char>, Vec<char>),
    /// `[attr$=value]`
    EndsWith(Vec<char>, Vec<char>),
    /// `[attr*=value]`
    Contains(Vec<char>, Vec<char>),
    /// `[attr~=value]`: the value, split on whitespace, has this token.
    ListContains(Vec<char>, Vec<char>),
    /// `[attr|=value]`: the value equals this, or starts with this
    /// followed by `-`.
    DashMatch(Vec<char>, Vec<char>),
}

/// Spec-level form of [`AttributeSelector`].
#[verifier::ext_equal]
pub enum AttrSelView {
    Exists(Seq<char>),
    Equals(Seq<char>, Seq<char>),
    StartsWith(Seq<char>, Seq<char>),
    EndsWith(Seq<char>, Seq<char>),
    Contains(Seq<char>, Seq<char>),
    ListContains(Seq<char>, Seq<char>),
    DashMatch(Seq<char>, Seq<char>),
}

impl View for AttributeSelector {
    type V = AttrSelView;

    open spec fn view(&self) -> AttrSelView {
        match self {
            AttributeSelector::Exists(n) => AttrSelView::Exists(n@),
            AttributeSelector::Equals(n, v) => AttrSelView::Equals(n@, v@),
            AttributeSelector::StartsWith(n, v) => AttrSelView::StartsWith(n@, v@),
            AttributeSelector::EndsWith(n, v) => AttrSelView::EndsWith(n@, v@),
            AttributeSelector::Contains(n, v) => AttrSelView::Contains(n@, v@),
            AttributeSelector::ListContains(n, v) => AttrSelView::ListContains(n@, v@),
            AttributeSelector::DashMatch(n, v) => AttrSelView::DashMatch(n@, v@),
        }
    }
}

impl AttrSelView {
    /// The attribute name the predicate tests.
    pub open spec fn name(self) -> Seq<char> {
        match self {
            AttrSelView::Exists(n) => n,
            AttrSelView::Equals(n, _) => n,
            AttrSelView::StartsWith(n, _) => n,
            AttrSelView::EndsWith(n, _) => n,
            AttrSelView::Contains(n, _) => n,
            AttrSelView::ListContains(n, _) => n,
            AttrSelView::DashMatch(n, _) => n,
        }
    }

    /// The predicate names a non-empty attribute.
    pub open spec fn wf(self) -> bool {
        self.name().len() > 0
    }
}

/// The compound part a `:not(...)` pseudo-class negates: element, id,
/// class and attribute constraints only (no pseudo-classes, no
/// combinators).
#[derive(Debug, PartialEq, Eq)]
pub struct SimplePart {
    pub element: Option<Vec<char>>,
    pub id: Option<Vec<char>>,
    pub classes: Vec<Vec<char>>,
    pub attributes: Vec<AttributeSelector>,
}

/// Spec-level form of [`SimplePart`].
#[verifier::ext_equal]
pub struct SimplePartView {
    pub element: Option<Seq<char>>,
    pub id: Option<Seq<char>>,
    pub classes: Seq<Seq<char>>,
    pub attributes: Seq<AttrSelView>,
}

impl View for SimplePart {
    type V = SimplePartView;

    open spec fn view(&self) -> SimplePartView {
        SimplePartView {
            element: match self.element {
                Some(e) => Some(e@),
                None => None,
            },
            id: match self.id {
                Some(v) => Some(v@),
                None => None,
            },
            classes: self.classes@.map_values(|c: Vec<char>| c@),
            attributes: self.attributes@.map_values(|a: AttributeSelector| a@),
        }
    }
}

impl SimplePartView {
    /// Names are non-empty.
    pub open spec fn wf(self) -> bool {
        &&& (self.element matches Some(e) ==> e.len() > 0)
        &&& (self.id matches Some(v) ==> v.len() > 0)
        &&& forall|k: int| 0 <= k < self.classes.len() ==> (#[trigger] self.classes[k]).len() > 0
        &&& forall|k: int| 0 <= k < self.attributes.len() ==> (#[trigger] self.attributes[k]).wf()
    }
}

/// One pseudo-class constraint of a compound part.
#[derive(Debug, PartialEq, Eq)]
pub enum PseudoClass {
    /// `:first-child`: no previous sibling.
    FirstChild,
    /// `:last-child`: no next sibling.
    LastChild,
    /// `:nth-child(an+b)`: the 1-based position among all siblings is
    /// `a*k + b` for some `k >= 0`.
    NthChild(i64, i64),
    /// `:nth-last-child(an+b)`: likewise, counting from the end.
    NthLastChild(i64, i64),
    /// `:first-of-type`: no earlier sibling with the same tag.
    FirstOfType,
    /// `:last-of-type`: no later sibling with the same tag.
    LastOfType,
    /// `:only-child`: no siblings at all.
    OnlyChild,
    /// `:only-of-type`: the only sibling of its tag.
    OnlyOfType,
    /// `:empty`: no children recorded in the arena.
    Empty,
    /// `:not(part)`: negation of a single compound-part test.
    Not(SimplePart),
}

/// Spec-level form of [`PseudoClass`].
#[verifier::ext_equal]
pub enum PseudoView {
    FirstChild,
    LastChild,
    NthChild(int, int),
    NthLastChild(int, int),
    FirstOfType,
    LastOfType,
    OnlyChild,
    OnlyOfType,
    Empty,
    Not(SimplePartView),
}

impl View for PseudoClass {
    type V = PseudoView;

    open spec fn view(&self) -> PseudoView {
        match self {
            PseudoClass::FirstChild => PseudoView::FirstChild,
            PseudoClass::LastChild => PseudoView::LastChild,
            PseudoClass::NthChild(a, b) => PseudoView::NthChild(*a as int, *b as int),
            PseudoClass::NthLastChild(a, b) => PseudoView::NthLastChild(*a as int, *b as int),
            PseudoClass::FirstOfType => PseudoView::FirstOfType,
            PseudoClass::LastOfType => PseudoView::LastOfType,
            PseudoClass::OnlyChild => PseudoView::OnlyChild,
            PseudoClass::OnlyOfType => PseudoView::OnlyOfType,
            PseudoClass::Empty => PseudoView::Empty,
            PseudoClass::Not(p) => PseudoView::Not(p@),
        }
    }
}

impl PseudoView {
    pub open spec fn wf(self) -> bool {
        match self {
            PseudoView::Not(p) => p.wf(),
            _ => true,
        }
    }
}

/// A selector part's precision: id count, class-and-attribute count,
/// element count.
#[derive(Clone, Copy, PartialEq, Eq, Structural, Debug)]
pub struct Specificity {
    pub ids: usize,
    pub classes_attrs: usize,
    pub elements: usize,
}

/// One compound part: all constraints one node must satisfy.
#[derive(Debug, PartialEq, Eq)]
pub struct SelectorPart {
    pub element: Option<Vec<char>>,
    pub id: Option<Vec<char>>,
    pub classes: Vec<Vec<char>>,
    pub attributes: Vec<AttributeSelector>,
    pub pseudo_classes: Vec<PseudoClass>,
    pub specificity: Specificity,
}

/// Spec-level form of [`SelectorPart`].
#[verifier::ext_equal]
pub struct PartView {
    pub element: Option<Seq<char>>,
    pub id: Option<Seq<char>>,
    pub classes: Seq<Seq<char>>,
    pub attributes: Seq<AttrSelView>,
    pub pseudo_classes: Seq<PseudoView>,
    pub specificity: Specificity,
}

impl View for SelectorPart {
    type V = PartView;

    open spec fn view(&self) -> PartView {
        PartView {
            element: match self.element {
                Some(e) => Some(e@),
                None => None,
            },
            id: match self.id {
                Some(v) => Some(v@),
                None => None,
            },
            classes: self.classes@.map_values(|c: Vec<char>| c@),
            attributes: self.attributes@.map_values(|a: AttributeSelector| a@),
            pseudo_classes: self.pseudo_classes@.map_values(|p: PseudoClass| p@),
            specificity: self.specificity,
        }
    }
}

impl PartView {
    /// The part with no constraints at all (the universal part `*`).
    pub open spec fn is_universal(self) -> bool {
        &&& self.element is None
        &&& self.id is None
        &&& self.classes.len() == 0
        &&& self.attributes.len() == 0
        &&& self.pseudo_classes.len() == 0
    }

    /// The specificity a part with these constraints is assigned:
    /// `(id present, classes + attribute predicates, element present)`.
    pub open spec fn computed_specificity(self) -> (int, int, int) {
        (
            if self.id is Some {
                1int
            } else {
                0int
            },
            self.classes.len() + self.attributes.len() as int,
            if self.element is Some {
                1int
            } else {
                0int
            },
        )
    }

    /// Names non-empty, before the specificity is considered.
    pub open spec fn pre_wf(self) -> bool {
        &&& (self.element matches Some(e) ==> e.len() > 0)
        &&& (self.id matches Some(v) ==> v.len() > 0)
        &&& forall|k: int| 0 <= k < self.classes.len() ==> (#[trigger] self.classes[k]).len() > 0
        &&& forall|k: int| 0 <= k < self.attributes.len() ==> (#[trigger] self.attributes[k]).wf()
        &&& forall|k: int|
            0 <= k < self.pseudo_classes.len() ==> (#[trigger] self.pseudo_classes[k]).wf()
    }

    /// Names non-empty, specificity as computed.
    pub open spec fn wf(self) -> bool {
        &&& self.pre_wf()
        &&& (self.specificity.ids as int, self.specificity.classes_attrs as int,
        self.specificity.elements as int) == self.computed_specificity()
    }
}

/// One alternative: compound parts joined by combinators; the node a
/// sequence matches is constrained by its last (anchor) part.
#[derive(Debug, PartialEq, Eq)]
pub struct SelectorSequence {
    pub parts: Vec<SelectorPart>,
    pub combinators: Vec<Combinator>,
}

/// Spec-level form of [`SelectorSequence`].
#[verifier::ext_equal]
pub struct SequenceView {
    pub parts: Seq<PartView>,
    pub combinators: Seq<Combinator>,
}

impl View for SelectorSequence {
    type V = SequenceView;

    open spec fn view(&self) -> SequenceView {
        SequenceView {
            parts: self.parts@.map_values(|p: SelectorPart| p@),
            combinators: self.combinators@,
        }
    }
}

impl SequenceView {
    pub open spec fn wf(self) -> bool {
        &&& self.parts.len() >= 1
        &&& self.combinators.len() == self.parts.len() - 1
        &&& forall|k: int| 0 <= k < self.parts.len() ==> (#[trigger] self.parts[k]).wf()
    }
}

/// A parsed selector: the set of its alternatives.
#[derive(Debug, PartialEq, Eq)]
pub struct Selector {
    pub alternatives: Vec<SelectorSequence>,
}

/// Spec-level form of [`Selector`].
#[verifier::ext_equal]
pub struct SelectorView {
    pub alternatives: Seq<SequenceView>,
}

impl View for Selector {
    type V = SelectorView;

    open spec fn view(&self) -> SelectorView {
        SelectorView { alternatives: self.alternatives@.map_values(|s: SelectorSequence| s@) }
    }
}

impl SelectorView {
    pub open spec fn wf(self) -> bool {
        forall|k: int| 0 <= k < self.alternatives.len() ==> (#[trigger] self.alternatives[k]).wf()
    }
}

fn clone_opt_chars(o: &Option<Vec<char>>) -> (r: Option<Vec<char>>)
    ensures
        match (o, &r) {
            (Some(a), Some(b)) => a@ == b@,
            (None, None) => true,
            _ => false,
        },
{
    match o {
        Some(v) => Some(clone_chars(v)),
        None => None,
    }
}

fn clone_classes(v: &Vec<Vec<char>>) -> (r: Vec<Vec<char>>)
    ensures
        r@.map_values(|c: Vec<char>| c@) == v@.map_values(|c: Vec<char>| c@),
{
    let mut r: Vec<Vec<char>> = Vec::new();
    let mut i: usize = 0;
    while i < v.len()
        invariant
            i <= v.len(),
            r@.len() == i,
            forall|j: int| 0 <= j < i ==> (#[trigger] r@[j])@ == v@[j]@,
        decreases v.len() - i,
    {
        r.push(clone_chars(&v[i]));
        i += 1;
    }
    proof {
        assert(r@.map_values(|c: Vec<char>| c@) =~= v@.map_values(|c: Vec<char>| c@));
    }
    r
}

impl Clone for AttributeSelector {
    /// Clones preserve the view.
    fn clone(&self) -> (r: Self)
        ensures
            r@ == self@,
    {
        match self {
            AttributeSelector::Exists(n) => AttributeSelector::Exists(clone_chars(n)),
            AttributeSelector::Equals(n, v) => AttributeSelector::Equals(
                clone_chars(n),
                clone_chars(v),
            ),
            AttributeSelector::StartsWith(n, v) => AttributeSelector::StartsWith(
                clone_chars(n),
                clone_chars(v),
            ),
            AttributeSelector::EndsWith(n, v) => AttributeSelector::EndsWith(
                clone_chars(n),
                clone_chars(v),
            ),
            AttributeSelector::Contains(n, v) => AttributeSelector::Contains(
                clone_chars(n),
                clone_chars(v),
            ),
            AttributeSelector::ListContains(n, v) => AttributeSelector::ListContains(
                clone_chars(n),
                clone_chars(v),
            ),
            AttributeSelector::DashMatch(n, v) => AttributeSelector::DashMatch(
                clone_chars(n),
                clone_chars(v),
            ),
        }
    }
}

fn clone_attrs(v: &Vec<AttributeSelector>) -> (r: Vec<AttributeSelector>)
    ensures
        r@.map_values(|a: AttributeSelector| a@) == v@.map_values(|a: AttributeSelector| a@),
{
    let mut r: Vec<AttributeSelector> = Vec::new();
    let mut i: usize = 0;
    while i < v.len()
        invariant
            i <= v.len(),
            r@.len() == i,
            forall|j: int| 0 <= j < i ==> (#[trigger] r@[j])@ == v@[j]@,
        decreases v.len() - i,
    {
        r.push(v[i].clone());
        i += 1;
    }
    proof {
        assert(r@.map_values(|a: AttributeSelector| a@) =~= v@.map_values(
            |a: AttributeSelector| a@,
        ));
    }
    r
}

impl Clone for SimplePart {
    /// Clones preserve the view.
    fn clone(&self) -> (r: Self)
        ensures
            r@ == self@,
    {
        SimplePart {
            element: clone_opt_chars(&self.element),
            id: clone_opt_chars(&self.id),
            classes: clone_classes(&self.classes),
            attributes: clone_attrs(&self.attributes),
        }
    }
}

impl Clone for PseudoClass {
    /// Clones preserve the view.
    fn clone(&self) -> (r: Self)
        ensures
            r@ == self@,
    {
        match self {
            PseudoClass::FirstChild => PseudoClass::FirstChild,
            PseudoClass::LastChild => PseudoClass::LastChild,
            PseudoClass::NthChild(a, b) => PseudoClass::NthChild(*a, *b),
            PseudoClass::NthLastChild(a, b) => PseudoClass::NthLastChild(*a, *b),
            PseudoClass::FirstOfType => PseudoClass::FirstOfType,
            PseudoClass::LastOfType => PseudoClass::LastOfType,
            PseudoClass::OnlyChild => PseudoClass::OnlyChild,
            PseudoClass::OnlyOfType => PseudoClass::OnlyOfType,
            PseudoClass::Empty => PseudoClass::Empty,
            PseudoClass::Not(p) => PseudoClass::Not(p.clone()),
        }
    }
}

fn clone_pseudos(v: &Vec<PseudoClass>) -> (r: Vec<PseudoClass>)
    ensures
        r@.map_values(|p: PseudoClass| p@) == v@.map_values(|p: PseudoClass| p@),
{
    let mut r: Vec<PseudoClass> = Vec::new();
    let mut i: usize = 0;
    while i < v.len()
        invariant
            i <= v.len(),
            r@.len() == i,
            forall|j: int| 0 <= j < i ==> (#[trigger] r@[j])@ == v@[j]@,
        decreases v.len() - i,
    {
        r.push(v[i].clone());
        i += 1;
    }
    proof {
        assert(r@.map_values(|p: PseudoClass| p@) =~= v@.map_values(|p: PseudoClass| p@));
    }
    r
}

impl Clone for SelectorPart {
    /// Clones preserve the view.
    fn clone(&self) -> (r: Self)
        ensures
            r@ == self@,
    {
        SelectorPart {
            element: clone_opt_chars(&self.element),
            id: clone_opt_chars(&self.id),
            classes: clone_classes(&self.classes),
            attributes: clone_attrs(&self.attributes),
            pseudo_classes: clone_pseudos(&self.pseudo_classes),
            specificity: self.specificity,
        }
    }
}

fn clone_parts(v: &Vec<SelectorPart>) -> (r: Vec<SelectorPart>)
    ensures
        r@.map_values(|p: SelectorPart| p@) == v@.map_values(|p: SelectorPart| p@),
{
    let mut r: Vec<SelectorPart> = Vec::new();
    let mut i: usize = 0;
    while i < v.len()
        invariant
            i <= v.len(),
            r@.len() == i,
            forall|j: int| 0 <= j < i ==> (#[trigger] r@[j])@ == v@[j]@,
        decreases v.len() - i,
    {
        r.push(v[i].clone());
        i += 1;
    }
    proof {
        assert(r@.map_values(|p: SelectorPart| p@) =~= v@.map_values(|p: SelectorPart| p@));
    }
    r
}

fn clone_combinators(v: &Vec<Combinator>) -> (r: Vec<Combinator>)
    ensures
        r@ == v@,
{
    let mut r: Vec<Combinator> = Vec::new();
    let mut i: usize = 0;
    while i < v.len()
        invariant
            i <= v.len(),
            r@ == v@.subrange(0, i as int),
        decreases v.len() - i,
    {
        r.push(v[i]);
        proof {
            assert(r@ =~= v@.subrange(0, i + 1 as int));
        }
        i += 1;
    }
    proof {
        assert(r@ =~= v@);
    }
    r
}

impl Clone for SelectorSequence {
    /// Clones preserve the view.
    fn clone(&self) -> (r: Self)
        ensures
            r@ == self@,
    {
        SelectorSequence {
            parts: clone_parts(&self.parts),
            combinators: clone_combinators(&self.combinators),
        }
    }
}

impl Clone for Selector {
    /// Clones preserve the view.
    fn clone(&self) -> (r: Self)
        ensures
            r@ == self@,
    {
        let mut alts: Vec<SelectorSequence> = Vec::new();
        let mut i: usize = 0;
        while i < self.alternatives.len()
            invariant
                i <= self.alternatives.len(),
                alts@.len() == i,
                forall|j: int| 0 <= j < i ==> (#[trigger] alts@[j])@ == self.alternatives@[j]@,
            decreases self.alternatives.len() - i,
        {
            alts.push(self.alternatives[i].clone());
            i += 1;
        }
        proof {
            assert(alts@.map_values(|s: SelectorSequence| s@) =~= self.alternatives@.map_values(
                |s: SelectorSequence| s@,
            ));
        }
        Selector { alternatives: alts }
    }
}

} // verus!
