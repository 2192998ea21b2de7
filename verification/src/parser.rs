//! The selector parser: compiles a selector string into a [`Selector`].
//!
//! The grammar: a selector is a comma-separated list of alternatives;
//! each alternative is a sequence of compound parts joined by
//! combinators (whitespace for descendant, `>`, `+`, `~`); a compound
//! part is an optional element name followed by any number of `.class`,
//! `#id`, `[attr op value]` and `:pseudo-class` constraints, or `*`.
//! Attribute operators: none (existence), `=`, `^=`, `$=`, `*=`, `~=`,
//! `|=`; quotes around an attribute value are optional and stripped.
//! Pseudo-classes: `first-child`, `last-child`, `nth-child(an+b)`,
//! `nth-last-child(an+b)`, `first-of-type`, `last-of-type`,
//! `only-child`, `only-of-type`, `empty`, `not(simple part)`.  The
//! `an+b` argument is the full form with signs (`odd`/`even` are not
//! recognized).  The selector `*` is the universal selector.
//!
//! Malformed selectors are rejected with a structured
//! [`SelectorSyntaxError`]; parsing never panics and never silently
//! truncates.  The whole parse is pure: the executable parser is pinned
//! to the spec-level parser [`parse_spec`], so equal selector strings
//! always compile to structurally equal selectors.

use vstd::prelude::*;
use crate::selector::{
    AttrSelView, AttributeSelector, Combinator, PartView, PseudoClass, PseudoView, Selector,
    SelectorPart, SelectorSequence, SelectorView, SequenceView, SimplePart, SimplePartView,
    Specificity,
};
use crate::text::{is_space_char, space_char, sub_chars};

verus! {

/// Why a selector string was rejected.
#[derive(Clone, Copy, PartialEq, Eq, Structural, Debug)]
pub enum SelectorSyntaxError {
    /// A `.`, `#` or attribute bracket with no name.
    EmptyName,
    /// A `[` with no matching `]`, or an unterminated quoted value.
    UnterminatedAttribute,
    /// A character after an attribute name that is no known operator.
    UnknownAttributeOperator,
    /// A `:` pseudo-class argument with no closing parenthesis.
    UnterminatedPseudoClass,
    /// A pseudo-class name this grammar does not know.
    UnknownPseudoClass,
    /// An `nth-child`/`nth-last-child` argument that is no `an+b` form.
    BadNthArgument,
    /// A `:not(...)` argument that is empty or no simple compound part.
    InvalidNotArgument,
    /// A combinator with no part on its left or right.
    InvalidCombinator,
    /// A stray `)` or `]`.
    UnexpectedChar,
}

/// Characters that end an element, class or id name.
pub open spec fn is_ident_end(c: char) -> bool {
    is_space_char(c) || c == '.' || c == '#' || c == '[' || c == ':' || c == ',' || c == '>'
        || c == '+' || c == '~' || c == '*' || c == ')' || c == ']'
}

/// Executable mirror of [`is_ident_end`].
pub fn ident_end_char(c: char) -> (r: bool)
    ensures
        r == is_ident_end(c),
{
    space_char(c) || c == '.' || c == '#' || c == '[' || c == ':' || c == ',' || c == '>' || c
        == '+' || c == '~' || c == '*' || c == ')' || c == ']'
}

/// First position `q >= p` with `q == s.len()` or a name-ending
/// character at `q`.
pub open spec fn scan_ident(s: Seq<char>, p: int) -> int
    decreases s.len() - p,
{
    if p >= s.len() {
        s.len() as int
    } else if is_ident_end(s[p]) {
        p
    } else {
        scan_ident(s, p + 1)
    }
}

/// Characters that end an attribute name.
pub open spec fn is_attr_name_end(c: char) -> bool {
    c == '=' || c == '^' || c == '$' || c == '*' || c == '~' || c == '|' || c == ']'
}

/// Executable mirror of [`is_attr_name_end`].
pub fn attr_name_end_char(c: char) -> (r: bool)
    ensures
        r == is_attr_name_end(c),
{
    c == '=' || c == '^' || c == '$' || c == '*' || c == '~' || c == '|' || c == ']'
}

/// First position `q >= p` with `q == s.len()` or an attribute-name
/// ending character at `q`.
pub open spec fn scan_attr_name(s: Seq<char>, p: int) -> int
    decreases s.len() - p,
{
    if p >= s.len() {
        s.len() as int
    } else if is_attr_name_end(s[p]) {
        p
    } else {
        scan_attr_name(s, p + 1)
    }
}

/// First position `q >= p` with `q == s.len()` or the character `c`
/// at `q`.
pub open spec fn scan_until(s: Seq<char>, p: int, c: char) -> int
    decreases s.len() - p,
{
    if p >= s.len() {
        s.len() as int
    } else if s[p] == c {
        p
    } else {
        scan_until(s, p + 1, c)
    }
}

/// A character of a pseudo-class name: a lowercase letter or `-`.
pub open spec fn is_pseudo_name_char(c: char) -> bool {
    ('a' <= c && c <= 'z') || c == '-'
}

/// Executable mirror of [`is_pseudo_name_char`].
pub fn pseudo_name_char(c: char) -> (r: bool)
    ensures
        r == is_pseudo_name_char(c),
{
    ('a' <= c && c <= 'z') || c == '-'
}

/// First position `q >= p` with `q == s.len()` or a character at `q`
/// that is no pseudo-class name character.
pub open spec fn scan_pseudo_name(s: Seq<char>, p: int) -> int
    decreases s.len() - p,
{
    if p >= s.len() {
        s.len() as int
    } else if !is_pseudo_name_char(s[p]) {
        p
    } else {
        scan_pseudo_name(s, p + 1)
    }
}

/// First position `q >= p` with `q == s.len()` or a non-whitespace
/// character at `q`.
pub open spec fn skip_space(s: Seq<char>, p: int) -> int
    decreases s.len() - p,
{
    if p >= s.len() {
        s.len() as int
    } else if is_space_char(s[p]) {
        skip_space(s, p + 1)
    } else {
        p
    }
}

proof fn lemma_scan_ident_bounds(s: Seq<char>, p: int)
    requires
        p <= s.len(),
    ensures
        p <= scan_ident(s, p) <= s.len(),
    decreases s.len() - p,
{
    if p < s.len() && !is_ident_end(s[p]) {
        lemma_scan_ident_bounds(s, p + 1);
    }
}

proof fn lemma_scan_attr_name_bounds(s: Seq<char>, p: int)
    requires
        p <= s.len(),
    ensures
        p <= scan_attr_name(s, p) <= s.len(),
    decreases s.len() - p,
{
    if p < s.len() && !is_attr_name_end(s[p]) {
        lemma_scan_attr_name_bounds(s, p + 1);
    }
}

proof fn lemma_scan_until_bounds(s: Seq<char>, p: int, c: char)
    requires
        p <= s.len(),
    ensures
        p <= scan_until(s, p, c) <= s.len(),
    decreases s.len() - p,
{
    if p < s.len() && s[p] != c {
        lemma_scan_until_bounds(s, p + 1, c);
    }
}

proof fn lemma_scan_pseudo_name_bounds(s: Seq<char>, p: int)
    requires
        p <= s.len(),
    ensures
        p <= scan_pseudo_name(s, p) <= s.len(),
    decreases s.len() - p,
{
    if p < s.len() && is_pseudo_name_char(s[p]) {
        lemma_scan_pseudo_name_bounds(s, p + 1);
    }
}

proof fn lemma_skip_space_bounds(s: Seq<char>, p: int)
    requires
        p <= s.len(),
    ensures
        p <= skip_space(s, p) <= s.len(),
        skip_space(s, p) == s.len() || !is_space_char(s[skip_space(s, p)]),
    decreases s.len() - p,
{
    if p < s.len() && is_space_char(s[p]) {
        lemma_skip_space_bounds(s, p + 1);
    }
}

/// A decimal digit.
pub open spec fn is_digit(c: char) -> bool {
    '0' <= c && c <= '9'
}

/// Executable mirror of [`is_digit`].
pub fn digit_char(c: char) -> (r: bool)
    ensures
        r == is_digit(c),
{
    '0' <= c && c <= '9'
}

/// The numeric value of a digit.
pub open spec fn digit_val(c: char) -> int {
    (c as int) - ('0' as int)
}

/// Value of the decimal digits of `t` from `i` on, folded onto `acc`;
/// `None` on a non-digit or once the fold exceeds the size bound.
pub open spec fn digits_spec(t: Seq<char>, i: int, acc: int) -> Option<int>
    decreases t.len() - i,
{
    if acc > 1_000_000_000 {
        None
    } else if i >= t.len() {
        Some(acc)
    } else if is_digit(t[i]) {
        digits_spec(t, i + 1, acc * 10 + digit_val(t[i]))
    } else {
        None
    }
}

/// `t` with every whitespace character removed.
pub open spec fn remove_spaces(t: Seq<char>) -> Seq<char>
    decreases t.len(),
{
    if t.len() == 0 {
        Seq::empty()
    } else if is_space_char(t[0]) {
        remove_spaces(t.drop_first())
    } else {
        seq![t[0]] + remove_spaces(t.drop_first())
    }
}

/// The `a` coefficient written before the `n`: empty or a bare sign
/// means `1`/`-1`, otherwise signed digits.
pub open spec fn nth_a_spec(t: Seq<char>) -> Option<int> {
    if t.len() == 0 {
        Some(1)
    } else if t =~= seq!['+'] {
        Some(1)
    } else if t =~= seq!['-'] {
        Some(-1)
    } else if t[0] == '+' {
        digits_spec(t, 1, 0)
    } else if t[0] == '-' {
        match digits_spec(t, 1, 0) {
            Some(v) => Some(-v),
            None => None,
        }
    } else {
        digits_spec(t, 0, 0)
    }
}

/// The `b` offset written after the `n`: empty means `0`, otherwise
/// signed digits.
pub open spec fn nth_b_spec(t: Seq<char>) -> Option<int> {
    if t.len() == 0 {
        Some(0)
    } else if t[0] == '+' {
        if t.len() == 1 {
            None
        } else {
            digits_spec(t, 1, 0)
        }
    } else if t[0] == '-' {
        if t.len() == 1 {
            None
        } else {
            match digits_spec(t, 1, 0) {
                Some(v) => Some(-v),
                None => None,
            }
        }
    } else {
        digits_spec(t, 0, 0)
    }
}

/// The `(a, b)` of an `an+b` argument (whitespace ignored).
pub open spec fn nth_spec(arg: Seq<char>) -> Result<(int, int), SelectorSyntaxError> {
    let t = remove_spaces(arg);
    if t.len() == 0 {
        Err(SelectorSyntaxError::BadNthArgument)
    } else {
        let k = scan_until(t, 0, 'n');
        if k < t.len() {
            match nth_a_spec(t.subrange(0, k)) {
                Some(a) => match nth_b_spec(t.subrange(k + 1, t.len() as int)) {
                    Some(b) => Ok((a, b)),
                    None => Err(SelectorSyntaxError::BadNthArgument),
                },
                None => Err(SelectorSyntaxError::BadNthArgument),
            }
        } else {
            match nth_b_spec(t) {
                Some(b) => Ok((0, b)),
                None => Err(SelectorSyntaxError::BadNthArgument),
            }
        }
    }
}

/// The value of a bracketed attribute predicate, from the position
/// after the operator: optionally quoted, ending at `]`; the new
/// position is after the `]`.
pub open spec fn attr_value_spec(s: Seq<char>, p: int) -> Result<
    (Seq<char>, int),
    SelectorSyntaxError,
> {
    if p >= s.len() {
        Err(SelectorSyntaxError::UnterminatedAttribute)
    } else if s[p] == '"' || s[p] == '\'' {
        let q = scan_until(s, p + 1, s[p]);
        if q >= s.len() {
            Err(SelectorSyntaxError::UnterminatedAttribute)
        } else if q + 1 >= s.len() || s[q + 1] != ']' {
            Err(SelectorSyntaxError::UnterminatedAttribute)
        } else {
            Ok((s.subrange(p + 1, q), q + 2))
        }
    } else {
        let q = scan_until(s, p, ']');
        if q >= s.len() {
            Err(SelectorSyntaxError::UnterminatedAttribute)
        } else {
            Ok((s.subrange(p, q), q + 1))
        }
    }
}

/// A bracketed attribute predicate, from the position after the `[`;
/// the new position is after the `]`.
pub open spec fn attr_spec(s: Seq<char>, p: int) -> Result<
    (AttrSelView, int),
    SelectorSyntaxError,
> {
    let e = scan_attr_name(s, p);
    if e >= s.len() {
        Err(SelectorSyntaxError::UnterminatedAttribute)
    } else if e == p {
        Err(SelectorSyntaxError::EmptyName)
    } else {
        let name = s.subrange(p, e);
        if s[e] == ']' {
            Ok((AttrSelView::Exists(name), e + 1))
        } else if s[e] == '=' {
            match attr_value_spec(s, e + 1) {
                Ok((v, q)) => Ok((AttrSelView::Equals(name, v), q)),
                Err(err) => Err(err),
            }
        } else if e + 1 >= s.len() || s[e + 1] != '=' {
            Err(SelectorSyntaxError::UnknownAttributeOperator)
        } else {
            match attr_value_spec(s, e + 2) {
                Ok((v, q)) => if s[e] == '^' {
                    Ok((AttrSelView::StartsWith(name, v), q))
                } else if s[e] == '$' {
                    Ok((AttrSelView::EndsWith(name, v), q))
                } else if s[e] == '*' {
                    Ok((AttrSelView::Contains(name, v), q))
                } else if s[e] == '~' {
                    Ok((AttrSelView::ListContains(name, v), q))
                } else {
                    Ok((AttrSelView::DashMatch(name, v), q))
                },
                Err(err) => Err(err),
            }
        }
    }
}

/// The empty simple part.
pub open spec fn empty_simple_part() -> SimplePartView {
    SimplePartView { element: None, id: None, classes: Seq::empty(), attributes: Seq::empty() }
}

/// The constraints of a `:not(...)` argument, from position `p` up to
/// the closing `)`: element, `*`, `.class`, `#id` and `[attr]`
/// constraints only; the new position is at the `)`.
pub open spec fn not_part_spec(s: Seq<char>, p: int, acc: SimplePartView, any: bool) -> Result<
    (SimplePartView, int),
    SelectorSyntaxError,
>
    decreases s.len() - p,
    via not_part_spec_decreases
{
    if p >= s.len() {
        Err(SelectorSyntaxError::UnterminatedPseudoClass)
    } else if s[p] == ')' {
        if any {
            Ok((acc, p))
        } else {
            Err(SelectorSyntaxError::InvalidNotArgument)
        }
    } else if s[p] == '*' {
        not_part_spec(s, p + 1, acc, true)
    } else if s[p] == '.' {
        let e = scan_ident(s, p + 1);
        if e == p + 1 {
            Err(SelectorSyntaxError::EmptyName)
        } else {
            not_part_spec(
                s,
                e,
                SimplePartView { classes: acc.classes.push(s.subrange(p + 1, e)), ..acc },
                true,
            )
        }
    } else if s[p] == '#' {
        let e = scan_ident(s, p + 1);
        if e == p + 1 {
            Err(SelectorSyntaxError::EmptyName)
        } else {
            not_part_spec(
                s,
                e,
                SimplePartView { id: Some(s.subrange(p + 1, e)), ..acc },
                true,
            )
        }
    } else if s[p] == '[' {
        match attr_spec(s, p + 1) {
            Ok((a, q)) => not_part_spec(
                s,
                q,
                SimplePartView { attributes: acc.attributes.push(a), ..acc },
                true,
            ),
            Err(err) => Err(err),
        }
    } else if is_ident_end(s[p]) {
        Err(SelectorSyntaxError::InvalidNotArgument)
    } else {
        let e = scan_ident(s, p);
        not_part_spec(
            s,
            e,
            SimplePartView { element: Some(s.subrange(p, e)), ..acc },
            true,
        )
    }
}

proof fn lemma_attr_value_pos(s: Seq<char>, p: int)
    ensures
        attr_value_spec(s, p) matches Ok((v, q)) ==> p < q <= s.len(),
{
    if p < s.len() {
        if s[p] == '"' || s[p] == '\'' {
            lemma_scan_until_bounds(s, p + 1, s[p]);
        } else {
            lemma_scan_until_bounds(s, p, ']');
        }
    }
}

proof fn lemma_attr_pos(s: Seq<char>, p: int)
    ensures
        attr_spec(s, p) matches Ok((a, q)) ==> p < q <= s.len(),
{
    if p <= s.len() {
        lemma_scan_attr_name_bounds(s, p);
        let e = scan_attr_name(s, p);
        if e < s.len() && e != p {
            lemma_attr_value_pos(s, e + 1);
            lemma_attr_value_pos(s, e + 2);
        }
    }
}

#[via_fn]
proof fn not_part_spec_decreases(s: Seq<char>, p: int, acc: SimplePartView, any: bool) {
    if p < s.len() {
        lemma_scan_ident_bounds(s, p + 1);
        lemma_scan_ident_bounds(s, p);
        lemma_attr_pos(s, p + 1);
        if !(s[p] == ')' || s[p] == '*' || s[p] == '.' || s[p] == '#' || s[p] == '[')
            && !is_ident_end(s[p]) {
            assert(scan_ident(s, p) >= p + 1);
        }
    }
}

proof fn lemma_not_part_pos(s: Seq<char>, p: int, acc: SimplePartView, any: bool)
    requires
        p <= s.len(),
    ensures
        not_part_spec(s, p, acc, any) matches Ok((sp, q)) ==> p <= q < s.len(),
    decreases s.len() - p,
{
    if p < s.len() {
        lemma_scan_ident_bounds(s, p + 1);
        lemma_scan_ident_bounds(s, p);
        lemma_attr_pos(s, p + 1);
        if s[p] == ')' {
        } else if s[p] == '*' {
            lemma_not_part_pos(s, p + 1, acc, true);
        } else if s[p] == '.' {
            let e = scan_ident(s, p + 1);
            if e != p + 1 {
                lemma_not_part_pos(
                    s,
                    e,
                    SimplePartView { classes: acc.classes.push(s.subrange(p + 1, e)), ..acc },
                    true,
                );
            }
        } else if s[p] == '#' {
            let e = scan_ident(s, p + 1);
            if e != p + 1 {
                lemma_not_part_pos(
                    s,
                    e,
                    SimplePartView { id: Some(s.subrange(p + 1, e)), ..acc },
                    true,
                );
            }
        } else if s[p] == '[' {
            match attr_spec(s, p + 1) {
                Ok((a, q)) => {
                    lemma_not_part_pos(
                        s,
                        q,
                        SimplePartView { attributes: acc.attributes.push(a), ..acc },
                        true,
                    );
                },
                Err(_) => {},
            }
        } else if is_ident_end(s[p]) {
        } else {
            let e = scan_ident(s, p);
            assert(e >= p + 1);
            lemma_not_part_pos(
                s,
                e,
                SimplePartView { element: Some(s.subrange(p, e)), ..acc },
                true,
            );
        }
    }
}

/// One pseudo-class constraint, from the position after the `:`; the
/// new position is after the name (and its argument, if any).
pub open spec fn pseudo_spec(s: Seq<char>, p: int) -> Result<
    (PseudoView, int),
    SelectorSyntaxError,
> {
    let e = scan_pseudo_name(s, p);
    let name = s.subrange(p, e);
    if name =~= lit_first_child() {
        Ok((PseudoView::FirstChild, e))
    } else if name =~= lit_last_child() {
        Ok((PseudoView::LastChild, e))
    } else if name =~= lit_first_of_type() {
        Ok((PseudoView::FirstOfType, e))
    } else if name =~= lit_last_of_type() {
        Ok((PseudoView::LastOfType, e))
    } else if name =~= lit_only_child() {
        Ok((PseudoView::OnlyChild, e))
    } else if name =~= lit_only_of_type() {
        Ok((PseudoView::OnlyOfType, e))
    } else if name =~= lit_empty() {
        Ok((PseudoView::Empty, e))
    } else if name =~= lit_nth_child() || name =~= lit_nth_last_child() {
        if e >= s.len() || s[e] != '(' {
            Err(SelectorSyntaxError::UnterminatedPseudoClass)
        } else {
            let q = scan_until(s, e + 1, ')');
            if q >= s.len() {
                Err(SelectorSyntaxError::UnterminatedPseudoClass)
            } else {
                match nth_spec(s.subrange(e + 1, q)) {
                    Ok((a, b)) => if name =~= lit_nth_child() {
                        Ok((PseudoView::NthChild(a, b), q + 1))
                    } else {
                        Ok((PseudoView::NthLastChild(a, b), q + 1))
                    },
                    Err(err) => Err(err),
                }
            }
        }
    } else if name =~= lit_not() {
        if e >= s.len() || s[e] != '(' {
            Err(SelectorSyntaxError::UnterminatedPseudoClass)
        } else {
            match not_part_spec(s, e + 1, empty_simple_part(), false) {
                Ok((sp, q)) => Ok((PseudoView::Not(sp), q + 1)),
                Err(err) => Err(err),
            }
        }
    } else {
        Err(SelectorSyntaxError::UnknownPseudoClass)
    }
}

pub open spec fn lit_first_child() -> Seq<char> {
    seq!['f', 'i', 'r', 's', 't', '-', 'c', 'h', 'i', 'l', 'd']
}

pub open spec fn lit_last_child() -> Seq<char> {
    seq!['l', 'a', 's', 't', '-', 'c', 'h', 'i', 'l', 'd']
}

pub open spec fn lit_first_of_type() -> Seq<char> {
    seq!['f', 'i', 'r', 's', 't', '-', 'o', 'f', '-', 't', 'y', 'p', 'e']
}

pub open spec fn lit_last_of_type() -> Seq<char> {
    seq!['l', 'a', 's', 't', '-', 'o', 'f', '-', 't', 'y', 'p', 'e']
}

pub open spec fn lit_only_child() -> Seq<char> {
    seq!['o', 'n', 'l', 'y', '-', 'c', 'h', 'i', 'l', 'd']
}

pub open spec fn lit_only_of_type() -> Seq<char> {
    seq!['o', 'n', 'l', 'y', '-', 'o', 'f', '-', 't', 'y', 'p', 'e']
}

pub open spec fn lit_empty() -> Seq<char> {
    seq!['e', 'm', 'p', 't', 'y']
}

pub open spec fn lit_nth_child() -> Seq<char> {
    seq!['n', 't', 'h', '-', 'c', 'h', 'i', 'l', 'd']
}

pub open spec fn lit_nth_last_child() -> Seq<char> {
    seq!['n', 't', 'h', '-', 'l', 'a', 's', 't', '-', 'c', 'h', 'i', 'l', 'd']
}

pub open spec fn lit_not() -> Seq<char> {
    seq!['n', 'o', 't']
}

proof fn lemma_pseudo_pos(s: Seq<char>, p: int)
    requires
        p <= s.len(),
    ensures
        pseudo_spec(s, p) matches Ok((ps, q)) ==> p <= q <= s.len(),
{
    lemma_scan_pseudo_name_bounds(s, p);
    let e = scan_pseudo_name(s, p);
    if e < s.len() && s[e] == '(' {
        lemma_scan_until_bounds(s, e + 1, ')');
        lemma_not_part_pos(s, e + 1, empty_simple_part(), false);
    }
}

/// The part with no constraints, before its specificity is filled in.
pub open spec fn empty_part() -> PartView {
    PartView {
        element: None,
        id: None,
        classes: Seq::empty(),
        attributes: Seq::empty(),
        pseudo_classes: Seq::empty(),
        specificity: Specificity { ids: 0, classes_attrs: 0, elements: 0 },
    }
}

/// `acc` with its specificity computed from its constraints.
pub open spec fn finish_part(acc: PartView) -> PartView {
    PartView {
        specificity: Specificity {
            ids: if acc.id is Some {
                1usize
            } else {
                0usize
            },
            classes_attrs: (acc.classes.len() + acc.attributes.len()) as usize,
            elements: if acc.element is Some {
                1usize
            } else {
                0usize
            },
        },
        ..acc
    }
}

/// A compound part, accumulated onto `acc` from position `p`; stops
/// before a space, `,`, `>`, `+`, `~` or the end.
pub open spec fn part_spec(s: Seq<char>, p: int, acc: PartView) -> Result<
    (PartView, int),
    SelectorSyntaxError,
>
    decreases s.len() - p,
    via part_spec_decreases
{
    if p >= s.len() {
        Ok((finish_part(acc), p))
    } else if is_space_char(s[p]) || s[p] == ',' || s[p] == '>' || s[p] == '+' || s[p] == '~' {
        Ok((finish_part(acc), p))
    } else if s[p] == '*' {
        part_spec(s, p + 1, acc)
    } else if s[p] == '.' {
        let e = scan_ident(s, p + 1);
        if e == p + 1 {
            Err(SelectorSyntaxError::EmptyName)
        } else {
            part_spec(s, e, PartView { classes: acc.classes.push(s.subrange(p + 1, e)), ..acc })
        }
    } else if s[p] == '#' {
        let e = scan_ident(s, p + 1);
        if e == p + 1 {
            Err(SelectorSyntaxError::EmptyName)
        } else {
            part_spec(s, e, PartView { id: Some(s.subrange(p + 1, e)), ..acc })
        }
    } else if s[p] == '[' {
        match attr_spec(s, p + 1) {
            Ok((a, q)) => part_spec(s, q, PartView { attributes: acc.attributes.push(a), ..acc }),
            Err(err) => Err(err),
        }
    } else if s[p] == ':' {
        match pseudo_spec(s, p + 1) {
            Ok((ps, q)) => if q == p + 1 {
                Err(SelectorSyntaxError::UnknownPseudoClass)
            } else {
                part_spec(s, q, PartView { pseudo_classes: acc.pseudo_classes.push(ps), ..acc })
            },
            Err(err) => Err(err),
        }
    } else if s[p] == ')' || s[p] == ']' {
        Err(SelectorSyntaxError::UnexpectedChar)
    } else {
        let e = scan_ident(s, p);
        part_spec(s, e, PartView { element: Some(s.subrange(p, e)), ..acc })
    }
}

#[via_fn]
proof fn part_spec_decreases(s: Seq<char>, p: int, acc: PartView) {
    if p < s.len() {
        lemma_scan_ident_bounds(s, p + 1);
        lemma_scan_ident_bounds(s, p);
        lemma_attr_pos(s, p + 1);
        lemma_pseudo_pos(s, p + 1);
        if !(is_space_char(s[p]) || s[p] == ',' || s[p] == '>' || s[p] == '+' || s[p] == '~' || s[p]
            == '*' || s[p] == '.' || s[p] == '#' || s[p] == '[' || s[p] == ':' || s[p] == ')' || s[p]
            == ']') {
            assert(!is_ident_end(s[p]));
            assert(scan_ident(s, p) >= p + 1);
        }
    }
}

proof fn lemma_part_pos(s: Seq<char>, p: int, acc: PartView)
    requires
        p <= s.len(),
    ensures
        part_spec(s, p, acc) matches Ok((pt, q)) ==> p <= q <= s.len(),
    decreases s.len() - p,
{
    if p < s.len() {
        lemma_scan_ident_bounds(s, p + 1);
        lemma_scan_ident_bounds(s, p);
        lemma_attr_pos(s, p + 1);
        lemma_pseudo_pos(s, p + 1);
        if is_space_char(s[p]) || s[p] == ',' || s[p] == '>' || s[p] == '+' || s[p] == '~' {
        } else if s[p] == '*' {
            lemma_part_pos(s, p + 1, acc);
        } else if s[p] == '.' {
            let e = scan_ident(s, p + 1);
            if e != p + 1 {
                lemma_part_pos(
                    s,
                    e,
                    PartView { classes: acc.classes.push(s.subrange(p + 1, e)), ..acc },
                );
            }
        } else if s[p] == '#' {
            let e = scan_ident(s, p + 1);
            if e != p + 1 {
                lemma_part_pos(s, e, PartView { id: Some(s.subrange(p + 1, e)), ..acc });
            }
        } else if s[p] == '[' {
            match attr_spec(s, p + 1) {
                Ok((a, q)) => {
                    lemma_part_pos(s, q, PartView { attributes: acc.attributes.push(a), ..acc });
                },
                Err(_) => {},
            }
        } else if s[p] == ':' {
            match pseudo_spec(s, p + 1) {
                Ok((ps, q)) => {
                    lemma_part_pos(
                        s,
                        q,
                        PartView { pseudo_classes: acc.pseudo_classes.push(ps), ..acc },
                    );
                },
                Err(_) => {},
            }
        } else if s[p] == ')' || s[p] == ']' {
        } else {
            let e = scan_ident(s, p);
            lemma_part_pos(s, e, PartView { element: Some(s.subrange(p, e)), ..acc });
        }
    }
}

/// The rest of one alternative after its first part: combinators and
/// further parts; stops with the position at a top-level `,` or at the
/// end.
pub open spec fn seq_rest_spec(
    s: Seq<char>,
    p: int,
    parts: Seq<PartView>,
    combs: Seq<Combinator>,
) -> Result<(SequenceView, int), SelectorSyntaxError>
    decreases s.len() - p,
    via seq_rest_spec_decreases
{
    let q = skip_space(s, p);
    if q >= s.len() || s[q] == ',' {
        Ok((SequenceView { parts: parts, combinators: combs }, q))
    } else {
        let (comb, r) = if s[q] == '>' {
            (Combinator::Child, skip_space(s, q + 1))
        } else if s[q] == '+' {
            (Combinator::Adjacent, skip_space(s, q + 1))
        } else if s[q] == '~' {
            (Combinator::GeneralSibling, skip_space(s, q + 1))
        } else {
            (Combinator::Descendant, q)
        };
        if r >= s.len() || s[r] == ',' || s[r] == '>' || s[r] == '+' || s[r] == '~' {
            Err(SelectorSyntaxError::InvalidCombinator)
        } else {
            match part_spec(s, r, empty_part()) {
                Ok((pt, q2)) => seq_rest_spec(s, q2, parts.push(pt), combs.push(comb)),
                Err(err) => Err(err),
            }
        }
    }
}

#[via_fn]
proof fn seq_rest_spec_decreases(s: Seq<char>, p: int, parts: Seq<PartView>, combs: Seq<
    Combinator,
>) {
    if p <= s.len() {
        lemma_skip_space_bounds(s, p);
        let q = skip_space(s, p);
        if q < s.len() && s[q] != ',' {
            lemma_skip_space_bounds(s, q + 1);
            let r = if s[q] == '>' || s[q] == '+' || s[q] == '~' {
                skip_space(s, q + 1)
            } else {
                q
            };
            lemma_part_pos(s, r, empty_part());
            if !(r >= s.len() || s[r] == ',' || s[r] == '>' || s[r] == '+' || s[r] == '~') {
                lemma_part_consumes(s, r);
                assert(part_consumes_one(s, r, empty_part()));
            }
        }
    }
}

/// Parsing one part from `r` with this accumulator moves past `r`.
pub open spec fn part_consumes_one(s: Seq<char>, r: int, acc: PartView) -> bool {
    part_spec(s, r, acc) matches Ok((pt, q2)) ==> q2 > r
}

/// At a position that starts a part, the part consumes at least one
/// character.
pub open spec fn part_consumes(s: Seq<char>, r: int) -> bool {
    forall|acc: PartView| #[trigger] part_consumes_one(s, r, acc)
}

proof fn lemma_part_consumes(s: Seq<char>, r: int)
    requires
        r < s.len(),
        !is_space_char(s[r]),
        s[r] != ',',
        s[r] != '>',
        s[r] != '+',
        s[r] != '~',
    ensures
        part_consumes(s, r),
{
    assert forall|acc: PartView| #[trigger] part_consumes_one(s, r, acc) by {
        lemma_scan_ident_bounds(s, r + 1);
        lemma_scan_ident_bounds(s, r);
        lemma_attr_pos(s, r + 1);
        lemma_pseudo_pos(s, r + 1);
        if s[r] == '*' {
            lemma_part_pos(s, r + 1, acc);
        } else if s[r] == '.' {
            let e = scan_ident(s, r + 1);
            if e != r + 1 {
                lemma_part_pos(
                    s,
                    e,
                    PartView { classes: acc.classes.push(s.subrange(r + 1, e)), ..acc },
                );
            }
        } else if s[r] == '#' {
            let e = scan_ident(s, r + 1);
            if e != r + 1 {
                lemma_part_pos(s, e, PartView { id: Some(s.subrange(r + 1, e)), ..acc });
            }
        } else if s[r] == '[' {
            match attr_spec(s, r + 1) {
                Ok((a, q)) => {
                    lemma_part_pos(s, q, PartView { attributes: acc.attributes.push(a), ..acc });
                },
                Err(_) => {},
            }
        } else if s[r] == ':' {
            match pseudo_spec(s, r + 1) {
                Ok((ps, q)) => {
                    lemma_part_pos(
                        s,
                        q,
                        PartView { pseudo_classes: acc.pseudo_classes.push(ps), ..acc },
                    );
                },
                Err(_) => {},
            }
        } else if s[r] == ')' || s[r] == ']' {
        } else {
            let e = scan_ident(s, r);
            assert(e >= r + 1);
            lemma_part_pos(s, e, PartView { element: Some(s.subrange(r, e)), ..acc });
        }
    }
}

proof fn lemma_seq_rest_pos(s: Seq<char>, p: int, parts: Seq<PartView>, combs: Seq<Combinator>)
    requires
        p <= s.len(),
    ensures
        seq_rest_spec(s, p, parts, combs) matches Ok((sv, q)) ==> p <= q <= s.len() && (q == s.len()
            || s[q] == ','),
    decreases s.len() - p,
{
    lemma_skip_space_bounds(s, p);
    let q = skip_space(s, p);
    if q < s.len() && s[q] != ',' {
        lemma_skip_space_bounds(s, q + 1);
        let r = if s[q] == '>' || s[q] == '+' || s[q] == '~' {
            skip_space(s, q + 1)
        } else {
            q
        };
        lemma_part_pos(s, r, empty_part());
        if !(r >= s.len() || s[r] == ',' || s[r] == '>' || s[r] == '+' || s[r] == '~') {
            match part_spec(s, r, empty_part()) {
                Ok((pt, q2)) => {
                    lemma_part_consumes(s, r);
                    assert(part_consumes_one(s, r, empty_part()));
                    if s[q] == '>' {
                        lemma_seq_rest_pos(s, q2, parts.push(pt), combs.push(Combinator::Child));
                    } else if s[q] == '+' {
                        lemma_seq_rest_pos(s, q2, parts.push(pt), combs.push(Combinator::Adjacent));
                    } else if s[q] == '~' {
                        lemma_seq_rest_pos(
                            s,
                            q2,
                            parts.push(pt),
                            combs.push(Combinator::GeneralSibling),
                        );
                    } else {
                        lemma_seq_rest_pos(
                            s,
                            q2,
                            parts.push(pt),
                            combs.push(Combinator::Descendant),
                        );
                    }
                },
                Err(_) => {},
            }
        }
    }
}

/// One alternative starting at `p` (a non-space, non-comma position):
/// its first part and then [`seq_rest_spec`].
pub open spec fn sequence_spec(s: Seq<char>, p: int) -> Result<
    (SequenceView, int),
    SelectorSyntaxError,
> {
    if s[p] == '>' || s[p] == '+' || s[p] == '~' {
        Err(SelectorSyntaxError::InvalidCombinator)
    } else {
        match part_spec(s, p, empty_part()) {
            Ok((pt, q)) => seq_rest_spec(s, q, seq![pt], Seq::empty()),
            Err(err) => Err(err),
        }
    }
}

proof fn lemma_sequence_pos(s: Seq<char>, p: int)
    requires
        p <= s.len(),
    ensures
        sequence_spec(s, p) matches Ok((sv, q)) ==> p <= q <= s.len() && (q == s.len() || s[q]
            == ','),
{
    if p == s.len() || !(s[p] == '>' || s[p] == '+' || s[p] == '~') {
        lemma_part_pos(s, p, empty_part());
        match part_spec(s, p, empty_part()) {
            Ok((pt, q)) => {
                lemma_seq_rest_pos(s, q, seq![pt], Seq::empty());
            },
            Err(_) => {},
        }
    }
}

/// All alternatives from position `p` on, onto `acc`; empty
/// alternatives are skipped.
pub open spec fn alts_spec(s: Seq<char>, p: int, acc: Seq<SequenceView>) -> Result<
    SelectorView,
    SelectorSyntaxError,
>
    decreases s.len() - p,
    via alts_spec_decreases
{
    let q = skip_space(s, p);
    if q >= s.len() {
        Ok(SelectorView { alternatives: acc })
    } else if s[q] == ',' {
        alts_spec(s, q + 1, acc)
    } else {
        match sequence_spec(s, q) {
            Ok((sv, q2)) => if q2 >= s.len() {
                Ok(SelectorView { alternatives: acc.push(sv) })
            } else {
                alts_spec(s, q2 + 1, acc.push(sv))
            },
            Err(err) => Err(err),
        }
    }
}

#[via_fn]
proof fn alts_spec_decreases(s: Seq<char>, p: int, acc: Seq<SequenceView>) {
    if p <= s.len() {
        lemma_skip_space_bounds(s, p);
        let q = skip_space(s, p);
        if q < s.len() && s[q] != ',' {
            lemma_sequence_pos(s, q);
        }
    }
}

/// The universal part `*`: no constraints, specificity `(0, 0, 0)`.
pub open spec fn universal_part() -> PartView {
    empty_part()
}

/// What the selector `*` compiles to: one alternative holding one
/// universal part.
pub open spec fn universal_selector() -> SelectorView {
    SelectorView {
        alternatives: seq![
            SequenceView { parts: seq![universal_part()], combinators: Seq::empty() },
        ],
    }
}

/// The compiled form of the selector text `s`: the universal selector
/// for `*`, otherwise its comma-separated alternatives.
pub open spec fn parse_spec(s: Seq<char>) -> Result<SelectorView, SelectorSyntaxError> {
    if s.len() == 1 && s[0] == '*' {
        Ok(universal_selector())
    } else {
        alts_spec(s, 0, Seq::empty())
    }
}

fn scan_ident_x(s: &Vec<char>, p: usize) -> (q: usize)
    requires
        p <= s@.len(),
    ensures
        q as int == scan_ident(s@, p as int),
        p <= q <= s@.len(),
{
    let mut q = p;
    while q < s.len() && !ident_end_char(s[q])
        invariant
            p <= q <= s@.len(),
            scan_ident(s@, p as int) == scan_ident(s@, q as int),
        decreases s@.len() - q,
    {
        q += 1;
    }
    q
}

fn scan_attr_name_x(s: &Vec<char>, p: usize) -> (q: usize)
    requires
        p <= s@.len(),
    ensures
        q as int == scan_attr_name(s@, p as int),
        p <= q <= s@.len(),
{
    let mut q = p;
    while q < s.len() && !attr_name_end_char(s[q])
        invariant
            p <= q <= s@.len(),
            scan_attr_name(s@, p as int) == scan_attr_name(s@, q as int),
        decreases s@.len() - q,
    {
        q += 1;
    }
    q
}

fn scan_until_x(s: &Vec<char>, p: usize, c: char) -> (q: usize)
    requires
        p <= s@.len(),
    ensures
        q as int == scan_until(s@, p as int, c),
        p <= q <= s@.len(),
{
    let mut q = p;
    while q < s.len() && s[q] != c
        invariant
            p <= q <= s@.len(),
            scan_until(s@, p as int, c) == scan_until(s@, q as int, c),
        decreases s@.len() - q,
    {
        q += 1;
    }
    q
}

fn scan_pseudo_name_x(s: &Vec<char>, p: usize) -> (q: usize)
    requires
        p <= s@.len(),
    ensures
        q as int == scan_pseudo_name(s@, p as int),
        p <= q <= s@.len(),
{
    let mut q = p;
    while q < s.len() && pseudo_name_char(s[q])
        invariant
            p <= q <= s@.len(),
            scan_pseudo_name(s@, p as int) == scan_pseudo_name(s@, q as int),
        decreases s@.len() - q,
    {
        q += 1;
    }
    q
}

fn skip_space_x(s: &Vec<char>, p: usize) -> (q: usize)
    requires
        p <= s@.len(),
    ensures
        q as int == skip_space(s@, p as int),
        p <= q <= s@.len(),
        q == s@.len() || !is_space_char(s@[q as int]),
{
    let mut q = p;
    while q < s.len() && space_char(s[q])
        invariant
            p <= q <= s@.len(),
            skip_space(s@, p as int) == skip_space(s@, q as int),
        decreases s@.len() - q,
    {
        q += 1;
    }
    q
}

pub(crate) fn digits_x(t: &Vec<char>, i0: usize) -> (r: Option<i64>)
    requires
        i0 <= t@.len(),
    ensures
        match r {
            Some(v) => digits_spec(t@, i0 as int, 0) == Some(v as int) && 0 <= v
                <= 10_000_000_009,
            None => digits_spec(t@, i0 as int, 0) is None,
        },
{
    let mut i = i0;
    let mut acc: i64 = 0;
    loop
        invariant
            i0 <= i <= t@.len(),
            0 <= acc <= 10_000_000_009,
            digits_spec(t@, i0 as int, 0) == digits_spec(t@, i as int, acc as int),
        decreases t@.len() - i,
    {
        if acc > 1_000_000_000 {
            return None;
        }
        if i == t.len() {
            return Some(acc);
        }
        if !digit_char(t[i]) {
            return None;
        }
        let d = (t[i] as u32 - 48) as i64;
        acc = acc * 10 + d;
        i += 1;
    }
}

fn nth_a_x(t: &Vec<char>) -> (r: Option<i64>)
    ensures
        match r {
            Some(v) => nth_a_spec(t@) == Some(v as int),
            None => nth_a_spec(t@) is None,
        },
{
    if t.len() == 0 {
        return Some(1);
    }
    if t.len() == 1 && t[0] == '+' {
        proof {
            assert(t@ =~= seq!['+']);
        }
        return Some(1);
    }
    if t.len() == 1 && t[0] == '-' {
        proof {
            assert(t@ =~= seq!['-']);
        }
        return Some(-1);
    }
    proof {
        if t@.len() == 1 {
            assert(t@ =~= seq![t@[0]]);
        }
    }
    if t[0] == '+' {
        digits_x(t, 1)
    } else if t[0] == '-' {
        match digits_x(t, 1) {
            Some(v) => Some(-v),
            None => None,
        }
    } else {
        digits_x(t, 0)
    }
}

fn nth_b_x(t: &Vec<char>) -> (r: Option<i64>)
    ensures
        match r {
            Some(v) => nth_b_spec(t@) == Some(v as int),
            None => nth_b_spec(t@) is None,
        },
{
    if t.len() == 0 {
        return Some(0);
    }
    if t[0] == '+' {
        if t.len() == 1 {
            None
        } else {
            digits_x(t, 1)
        }
    } else if t[0] == '-' {
        if t.len() == 1 {
            None
        } else {
            match digits_x(t, 1) {
                Some(v) => Some(-v),
                None => None,
            }
        }
    } else {
        digits_x(t, 0)
    }
}

fn remove_spaces_x(t: &Vec<char>) -> (r: Vec<char>)
    ensures
        r@ == remove_spaces(t@),
{
    let mut r: Vec<char> = Vec::new();
    let mut i: usize = 0;
    proof {
        assert(t@.subrange(0, t@.len() as int) =~= t@);
        assert(r@ + remove_spaces(t@) =~= remove_spaces(t@));
    }
    while i < t.len()
        invariant
            i <= t@.len(),
            remove_spaces(t@) == r@ + remove_spaces(t@.subrange(i as int, t@.len() as int)),
        decreases t@.len() - i,
    {
        let ghost rem = t@.subrange(i as int, t@.len() as int);
        proof {
            assert(rem[0] == t@[i as int]);
            assert(rem.drop_first() =~= t@.subrange(i + 1 as int, t@.len() as int));
        }
        if !space_char(t[i]) {
            r.push(t[i]);
            proof {
                assert(remove_spaces(rem) == seq![rem[0]] + remove_spaces(rem.drop_first()));
                assert((r@ + remove_spaces(rem.drop_first())) =~= (r@.drop_last() + remove_spaces(
                    rem,
                )));
            }
        }
        i += 1;
    }
    proof {
        assert(t@.subrange(t@.len() as int, t@.len() as int) =~= Seq::<char>::empty());
        assert(r@ + Seq::<char>::empty() =~= r@);
    }
    r
}

fn nth_x(arg: &Vec<char>) -> (r: Result<(i64, i64), SelectorSyntaxError>)
    ensures
        match r {
            Ok((a, b)) => nth_spec(arg@) == Ok::<(int, int), SelectorSyntaxError>(
                (a as int, b as int),
            ),
            Err(e) => nth_spec(arg@) == Err::<(int, int), SelectorSyntaxError>(e),
        },
{
    let t = remove_spaces_x(arg);
    if t.len() == 0 {
        return Err(SelectorSyntaxError::BadNthArgument);
    }
    let k = scan_until_x(&t, 0, 'n');
    if k < t.len() {
        let apart = sub_chars(&t, 0, k);
        let bpart = sub_chars(&t, k + 1, t.len());
        match nth_a_x(&apart) {
            Some(a) => match nth_b_x(&bpart) {
                Some(b) => Ok((a, b)),
                None => Err(SelectorSyntaxError::BadNthArgument),
            },
            None => Err(SelectorSyntaxError::BadNthArgument),
        }
    } else {
        match nth_b_x(&t) {
            Some(b) => Ok((0, b)),
            None => Err(SelectorSyntaxError::BadNthArgument),
        }
    }
}

fn attr_value_x(s: &Vec<char>, p: usize) -> (r: Result<(Vec<char>, usize), SelectorSyntaxError>)
    requires
        p <= s@.len(),
    ensures
        match r {
            Ok((v, q)) => attr_value_spec(s@, p as int) == Ok::<(Seq<char>, int),
                SelectorSyntaxError,
            >((v@, q as int)) && p < q <= s@.len(),
            Err(e) => attr_value_spec(s@, p as int) == Err::<(Seq<char>, int),
                SelectorSyntaxError,
            >(e),
        },
{
    if p >= s.len() {
        return Err(SelectorSyntaxError::UnterminatedAttribute);
    }
    let c = s[p];
    if c == '"' || c == '\'' {
        let q = scan_until_x(s, p + 1, c);
        if q >= s.len() {
            return Err(SelectorSyntaxError::UnterminatedAttribute);
        }
        if q + 1 >= s.len() || s[q + 1] != ']' {
            return Err(SelectorSyntaxError::UnterminatedAttribute);
        }
        let v = sub_chars(s, p + 1, q);
        Ok((v, q + 2))
    } else {
        let q = scan_until_x(s, p, ']');
        if q >= s.len() {
            return Err(SelectorSyntaxError::UnterminatedAttribute);
        }
        let v = sub_chars(s, p, q);
        Ok((v, q + 1))
    }
}

fn attr_x(s: &Vec<char>, p: usize) -> (r: Result<(AttributeSelector, usize), SelectorSyntaxError>)
    requires
        p <= s@.len(),
    ensures
        match r {
            Ok((a, q)) => attr_spec(s@, p as int) == Ok::<(AttrSelView, int),
                SelectorSyntaxError,
            >((a@, q as int)) && p < q <= s@.len() && a@.wf(),
            Err(e) => attr_spec(s@, p as int) == Err::<(AttrSelView, int), SelectorSyntaxError>(e),
        },
{
    let e = scan_attr_name_x(s, p);
    if e >= s.len() {
        return Err(SelectorSyntaxError::UnterminatedAttribute);
    }
    if e == p {
        return Err(SelectorSyntaxError::EmptyName);
    }
    let name = sub_chars(s, p, e);
    let c = s[e];
    if c == ']' {
        Ok((AttributeSelector::Exists(name), e + 1))
    } else if c == '=' {
        match attr_value_x(s, e + 1) {
            Ok((v, q)) => Ok((AttributeSelector::Equals(name, v), q)),
            Err(err) => Err(err),
        }
    } else if e + 1 >= s.len() || s[e + 1] != '=' {
        Err(SelectorSyntaxError::UnknownAttributeOperator)
    } else {
        match attr_value_x(s, e + 2) {
            Ok((v, q)) => {
                if c == '^' {
                    Ok((AttributeSelector::StartsWith(name, v), q))
                } else if c == '$' {
                    Ok((AttributeSelector::EndsWith(name, v), q))
                } else if c == '*' {
                    Ok((AttributeSelector::Contains(name, v), q))
                } else if c == '~' {
                    Ok((AttributeSelector::ListContains(name, v), q))
                } else {
                    Ok((AttributeSelector::DashMatch(name, v), q))
                }
            },
            Err(err) => Err(err),
        }
    }
}

fn not_part_x(s: &Vec<char>, p0: usize) -> (r: Result<(SimplePart, usize), SelectorSyntaxError>)
    requires
        p0 <= s@.len(),
    ensures
        match r {
            Ok((sp, q)) => not_part_spec(s@, p0 as int, empty_simple_part(), false) == Ok::<
                (SimplePartView, int),
                SelectorSyntaxError,
            >((sp@, q as int)) && p0 <= q < s@.len() && sp@.wf(),
            Err(e) => not_part_spec(s@, p0 as int, empty_simple_part(), false) == Err::<
                (SimplePartView, int),
                SelectorSyntaxError,
            >(e),
        },
{
    let mut acc = SimplePart { element: None, id: None, classes: Vec::new(), attributes: Vec::new() };
    let mut p = p0;
    let mut any = false;
    proof {
        assert(acc@ =~= empty_simple_part());
    }
    loop
        invariant
            p0 <= p <= s@.len(),
            acc@.wf(),
            not_part_spec(s@, p0 as int, empty_simple_part(), false) == not_part_spec(
                s@,
                p as int,
                acc@,
                any,
            ),
        decreases s@.len() - p,
    {
        if p >= s.len() {
            return Err(SelectorSyntaxError::UnterminatedPseudoClass);
        }
        let c = s[p];
        if c == ')' {
            if any {
                return Ok((acc, p));
            } else {
                return Err(SelectorSyntaxError::InvalidNotArgument);
            }
        } else if c == '*' {
            p += 1;
            any = true;
        } else if c == '.' {
            let e = scan_ident_x(s, p + 1);
            if e == p + 1 {
                return Err(SelectorSyntaxError::EmptyName);
            }
            let ghost before = acc@;
            acc.classes.push(sub_chars(s, p + 1, e));
            proof {
                assert(acc@.classes =~= before.classes.push(s@.subrange(p + 1 as int, e as int)));
                assert(acc@ =~= SimplePartView {
                    classes: before.classes.push(s@.subrange(p + 1 as int, e as int)),
                    ..before
                });
            }
            p = e;
            any = true;
        } else if c == '#' {
            let e = scan_ident_x(s, p + 1);
            if e == p + 1 {
                return Err(SelectorSyntaxError::EmptyName);
            }
            let ghost before = acc@;
            acc.id = Some(sub_chars(s, p + 1, e));
            proof {
                assert(acc@ =~= SimplePartView {
                    id: Some(s@.subrange(p + 1 as int, e as int)),
                    ..before
                });
            }
            p = e;
            any = true;
        } else if c == '[' {
            match attr_x(s, p + 1) {
                Ok((a, q)) => {
                    let ghost before = acc@;
                    let ghost av = a@;
                    acc.attributes.push(a);
                    proof {
                        assert(acc@.attributes =~= before.attributes.push(av));
                        assert(acc@ =~= SimplePartView {
                            attributes: before.attributes.push(av),
                            ..before
                        });
                    }
                    p = q;
                    any = true;
                },
                Err(err) => {
                    return Err(err);
                },
            }
        } else if ident_end_char(c) {
            return Err(SelectorSyntaxError::InvalidNotArgument);
        } else {
            let e = scan_ident_x(s, p);
            proof {
                assert(scan_ident(s@, p as int) >= p + 1) by {
                    assert(scan_ident(s@, p as int) == scan_ident(s@, p + 1 as int));
                    lemma_scan_ident_bounds(s@, p + 1);
                }
            }
            let ghost before = acc@;
            acc.element = Some(sub_chars(s, p, e));
            proof {
                assert(acc@ =~= SimplePartView {
                    element: Some(s@.subrange(p as int, e as int)),
                    ..before
                });
            }
            p = e;
            any = true;
        }
    }
}

fn pseudo_x(s: &Vec<char>, p: usize) -> (r: Result<(PseudoClass, usize), SelectorSyntaxError>)
    requires
        p <= s@.len(),
    ensures
        match r {
            Ok((ps, q)) => pseudo_spec(s@, p as int) == Ok::<(PseudoView, int),
                SelectorSyntaxError,
            >((ps@, q as int)) && p <= q <= s@.len() && ps@.wf(),
            Err(e) => pseudo_spec(s@, p as int) == Err::<(PseudoView, int), SelectorSyntaxError>(e),
        },
{
    let e = scan_pseudo_name_x(s, p);
    let name = sub_chars(s, p, e);
    proof {
        reveal_strlit("first-child");
        reveal_strlit("last-child");
        reveal_strlit("first-of-type");
        reveal_strlit("last-of-type");
        reveal_strlit("only-child");
        reveal_strlit("only-of-type");
        reveal_strlit("empty");
        reveal_strlit("nth-child");
        reveal_strlit("nth-last-child");
        reveal_strlit("not");
        assert("first-child"@ =~= lit_first_child());
        assert("last-child"@ =~= lit_last_child());
        assert("first-of-type"@ =~= lit_first_of_type());
        assert("last-of-type"@ =~= lit_last_of_type());
        assert("only-child"@ =~= lit_only_child());
        assert("only-of-type"@ =~= lit_only_of_type());
        assert("empty"@ =~= lit_empty());
        assert("nth-child"@ =~= lit_nth_child());
        assert("nth-last-child"@ =~= lit_nth_last_child());
        assert("not"@ =~= lit_not());
    }
    if crate::text::eq_str(&name, "first-child") {
        return Ok((PseudoClass::FirstChild, e));
    }
    if crate::text::eq_str(&name, "last-child") {
        return Ok((PseudoClass::LastChild, e));
    }
    if crate::text::eq_str(&name, "first-of-type") {
        return Ok((PseudoClass::FirstOfType, e));
    }
    if crate::text::eq_str(&name, "last-of-type") {
        return Ok((PseudoClass::LastOfType, e));
    }
    if crate::text::eq_str(&name, "only-child") {
        return Ok((PseudoClass::OnlyChild, e));
    }
    if crate::text::eq_str(&name, "only-of-type") {
        return Ok((PseudoClass::OnlyOfType, e));
    }
    if crate::text::eq_str(&name, "empty") {
        return Ok((PseudoClass::Empty, e));
    }
    let is_nth = crate::text::eq_str(&name, "nth-child");
    let is_nth_last = crate::text::eq_str(&name, "nth-last-child");
    if is_nth || is_nth_last {
        if e >= s.len() || s[e] != '(' {
            return Err(SelectorSyntaxError::UnterminatedPseudoClass);
        }
        let q = scan_until_x(s, e + 1, ')');
        if q >= s.len() {
            return Err(SelectorSyntaxError::UnterminatedPseudoClass);
        }
        let arg = sub_chars(s, e + 1, q);
        match nth_x(&arg) {
            Ok((a, b)) => {
                if is_nth {
                    return Ok((PseudoClass::NthChild(a, b), q + 1));
                } else {
                    return Ok((PseudoClass::NthLastChild(a, b), q + 1));
                }
            },
            Err(err) => {
                return Err(err);
            },
        }
    }
    if crate::text::eq_str(&name, "not") {
        if e >= s.len() || s[e] != '(' {
            return Err(SelectorSyntaxError::UnterminatedPseudoClass);
        }
        match not_part_x(s, e + 1) {
            Ok((sp, q)) => {
                return Ok((PseudoClass::Not(sp), q + 1));
            },
            Err(err) => {
                return Err(err);
            },
        }
    }
    Err(SelectorSyntaxError::UnknownPseudoClass)
}

fn part_x(s: &Vec<char>, p0: usize) -> (r: Result<(SelectorPart, usize), SelectorSyntaxError>)
    requires
        p0 <= s@.len(),
    ensures
        match r {
            Ok((pt, q)) => part_spec(s@, p0 as int, empty_part()) == Ok::<(PartView, int),
                SelectorSyntaxError,
            >((pt@, q as int)) && p0 <= q <= s@.len() && pt@.wf(),
            Err(e) => part_spec(s@, p0 as int, empty_part()) == Err::<(PartView, int),
                SelectorSyntaxError,
            >(e),
        },
{
    let mut acc = SelectorPart {
        element: None,
        id: None,
        classes: Vec::new(),
        attributes: Vec::new(),
        pseudo_classes: Vec::new(),
        specificity: Specificity { ids: 0, classes_attrs: 0, elements: 0 },
    };
    let mut p = p0;
    proof {
        assert(acc@ =~= empty_part());
    }
    loop
        invariant
            p0 <= p <= s@.len(),
            acc@.pre_wf(),
            acc.classes@.len() + acc.attributes@.len() <= p,
            part_spec(s@, p0 as int, empty_part()) == part_spec(s@, p as int, acc@),
        decreases s@.len() - p,
    {
        if p >= s.len() {
            let ghost before = acc@;
            let n_classes_attrs = acc.classes.len() + acc.attributes.len();
            acc.specificity = Specificity {
                ids: if acc.id.is_some() {
                    1
                } else {
                    0
                },
                classes_attrs: n_classes_attrs,
                elements: if acc.element.is_some() {
                    1
                } else {
                    0
                },
            };
            proof {
                assert(acc@ =~= finish_part(before));
            }
            return Ok((acc, p));
        }
        let c = s[p];
        if space_char(c) || c == ',' || c == '>' || c == '+' || c == '~' {
            let ghost before = acc@;
            let n_classes_attrs = acc.classes.len() + acc.attributes.len();
            acc.specificity = Specificity {
                ids: if acc.id.is_some() {
                    1
                } else {
                    0
                },
                classes_attrs: n_classes_attrs,
                elements: if acc.element.is_some() {
                    1
                } else {
                    0
                },
            };
            proof {
                assert(acc@ =~= finish_part(before));
            }
            return Ok((acc, p));
        } else if c == '*' {
            p += 1;
        } else if c == '.' {
            let e = scan_ident_x(s, p + 1);
            if e == p + 1 {
                return Err(SelectorSyntaxError::EmptyName);
            }
            let ghost before = acc@;
            acc.classes.push(sub_chars(s, p + 1, e));
            proof {
                assert(acc@.classes =~= before.classes.push(s@.subrange(p + 1 as int, e as int)));
                assert(acc@ =~= PartView {
                    classes: before.classes.push(s@.subrange(p + 1 as int, e as int)),
                    ..before
                });
            }
            p = e;
        } else if c == '#' {
            let e = scan_ident_x(s, p + 1);
            if e == p + 1 {
                return Err(SelectorSyntaxError::EmptyName);
            }
            let ghost before = acc@;
            acc.id = Some(sub_chars(s, p + 1, e));
            proof {
                assert(acc@ =~= PartView {
                    id: Some(s@.subrange(p + 1 as int, e as int)),
                    ..before
                });
            }
            p = e;
        } else if c == '[' {
            match attr_x(s, p + 1) {
                Ok((a, q)) => {
                    let ghost before = acc@;
                    let ghost av = a@;
                    acc.attributes.push(a);
                    proof {
                        assert(acc@.attributes =~= before.attributes.push(av));
                        assert(acc@ =~= PartView {
                            attributes: before.attributes.push(av),
                            ..before
                        });
                    }
                    p = q;
                },
                Err(err) => {
                    return Err(err);
                },
            }
        } else if c == ':' {
            match pseudo_x(s, p + 1) {
                Ok((ps, q)) => {
                    if q == p + 1 {
                        return Err(SelectorSyntaxError::UnknownPseudoClass);
                    }
                    let ghost before = acc@;
                    let ghost psv = ps@;
                    acc.pseudo_classes.push(ps);
                    proof {
                        assert(acc@.pseudo_classes =~= before.pseudo_classes.push(psv));
                        assert(acc@ =~= PartView {
                            pseudo_classes: before.pseudo_classes.push(psv),
                            ..before
                        });
                    }
                    p = q;
                },
                Err(err) => {
                    return Err(err);
                },
            }
        } else if c == ')' || c == ']' {
            return Err(SelectorSyntaxError::UnexpectedChar);
        } else {
            let e = scan_ident_x(s, p);
            proof {
                assert(scan_ident(s@, p as int) >= p + 1) by {
                    assert(scan_ident(s@, p as int) == scan_ident(s@, p + 1 as int));
                    lemma_scan_ident_bounds(s@, p + 1);
                }
            }
            let ghost before = acc@;
            acc.element = Some(sub_chars(s, p, e));
            proof {
                assert(acc@ =~= PartView {
                    element: Some(s@.subrange(p as int, e as int)),
                    ..before
                });
            }
            p = e;
        }
    }
}

#[verifier::loop_isolation(false)]
fn seq_rest_x(s: &Vec<char>, p0: usize, parts: Vec<SelectorPart>, combs: Vec<Combinator>) -> (r:
    Result<(SelectorSequence, usize), SelectorSyntaxError>)
    requires
        p0 <= s@.len(),
        parts@.len() == combs@.len() + 1,
        forall|k: int| 0 <= k < parts@.len() ==> (#[trigger] parts@[k])@.wf(),
    ensures
        match r {
            Ok((sq, q)) => seq_rest_spec(
                s@,
                p0 as int,
                parts@.map_values(|pt: SelectorPart| pt@),
                combs@,
            ) == Ok::<(SequenceView, int), SelectorSyntaxError>((sq@, q as int)) && q <= s@.len()
                && (q == s@.len() || s@[q as int] == ',') && sq@.wf(),
            Err(e) => seq_rest_spec(
                s@,
                p0 as int,
                parts@.map_values(|pt: SelectorPart| pt@),
                combs@,
            ) == Err::<(SequenceView, int), SelectorSyntaxError>(e),
        },
{
    let ghost parts0 = parts@.map_values(|pt: SelectorPart| pt@);
    let ghost combs0 = combs@;
    let mut parts = parts;
    let mut combs = combs;
    let mut p = p0;
    loop
        invariant
            p <= s@.len(),
            parts@.len() == combs@.len() + 1,
            forall|k: int| 0 <= k < parts@.len() ==> (#[trigger] parts@[k])@.wf(),
            seq_rest_spec(s@, p0 as int, parts0, combs0) == seq_rest_spec(
                s@,
                p as int,
                parts@.map_values(|pt: SelectorPart| pt@),
                combs@,
            ),
        decreases s@.len() - p,
    {
        let q = skip_space_x(s, p);
        if q >= s.len() {
            let sq = SelectorSequence { parts, combinators: combs };
            return Ok((sq, q));
        }
        if s[q] == ',' {
            let sq = SelectorSequence { parts, combinators: combs };
            return Ok((sq, q));
        }
        let cq = s[q];
        let (comb, r2) = if cq == '>' {
            (Combinator::Child, skip_space_x(s, q + 1))
        } else if cq == '+' {
            (Combinator::Adjacent, skip_space_x(s, q + 1))
        } else if cq == '~' {
            (Combinator::GeneralSibling, skip_space_x(s, q + 1))
        } else {
            (Combinator::Descendant, q)
        };
        if r2 >= s.len() || s[r2] == ',' || s[r2] == '>' || s[r2] == '+' || s[r2] == '~' {
            return Err(SelectorSyntaxError::InvalidCombinator);
        }
        match part_x(s, r2) {
            Ok((pt, q2)) => {
                let ghost parts_before = parts@.map_values(|pt: SelectorPart| pt@);
                let ghost combs_before = combs@;
                let ghost ptv = pt@;
                proof {
                    lemma_part_consumes(s@, r2 as int);
                    assert(part_consumes_one(s@, r2 as int, empty_part()));
                }
                parts.push(pt);
                combs.push(comb);
                proof {
                    assert(parts@.map_values(|pt: SelectorPart| pt@) =~= parts_before.push(ptv));
                    assert(combs@ =~= combs_before.push(comb));
                }
                p = q2;
            },
            Err(err) => {
                return Err(err);
            },
        }
    }
}

fn sequence_x(s: &Vec<char>, p: usize) -> (r: Result<
    (SelectorSequence, usize),
    SelectorSyntaxError,
>)
    requires
        p < s@.len(),
    ensures
        match r {
            Ok((sq, q)) => sequence_spec(s@, p as int) == Ok::<(SequenceView, int),
                SelectorSyntaxError,
            >((sq@, q as int)) && p <= q <= s@.len() && (q == s@.len() || s@[q as int] == ',')
                && sq@.wf(),
            Err(e) => sequence_spec(s@, p as int) == Err::<(SequenceView, int),
                SelectorSyntaxError,
            >(e),
        },
{
    let c = s[p];
    if c == '>' || c == '+' || c == '~' {
        return Err(SelectorSyntaxError::InvalidCombinator);
    }
    match part_x(s, p) {
        Ok((pt, q)) => {
            let ghost ptv = pt@;
            let mut parts: Vec<SelectorPart> = Vec::new();
            parts.push(pt);
            let combs: Vec<Combinator> = Vec::new();
            proof {
                assert(parts@.map_values(|x: SelectorPart| x@) =~= seq![ptv]);
                assert(combs@ =~= Seq::<Combinator>::empty());
            }
            match seq_rest_x(s, q, parts, combs) {
                Ok((sq, q2)) => {
                    proof {
                        lemma_seq_rest_pos(s@, q as int, seq![ptv], Seq::empty());
                    }
                    Ok((sq, q2))
                },
                Err(err) => Err(err),
            }
        },
        Err(err) => Err(err),
    }
}

/// Compiles the selector text `s`, or reports its first syntax error.
///
/// The result is exactly what the spec-level parser [`parse_spec`]
/// assigns to the characters of `s`; in particular, parsing is
/// deterministic, and a returned selector is well-formed (its
/// specificity tuples count one for a present id, one per class and
/// attribute predicate, and one for a present element name).
#[verifier::loop_isolation(false)]
pub fn parse_selector(s: &str) -> (r: Result<Selector, SelectorSyntaxError>)
    ensures
        match r {
            Ok(sel) => parse_spec(s@) == Ok::<SelectorView, SelectorSyntaxError>(sel@)
                && sel@.wf(),
            Err(e) => parse_spec(s@) == Err::<SelectorView, SelectorSyntaxError>(e),
        },
{
    let cs = crate::text::chars_of(s);
    if cs.len() == 1 && cs[0] == '*' {
        let part = SelectorPart {
            element: None,
            id: None,
            classes: Vec::new(),
            attributes: Vec::new(),
            pseudo_classes: Vec::new(),
            specificity: Specificity { ids: 0, classes_attrs: 0, elements: 0 },
        };
        let ghost partv = part@;
        let mut parts: Vec<SelectorPart> = Vec::new();
        parts.push(part);
        let sq = SelectorSequence { parts, combinators: Vec::new() };
        let ghost sqv = sq@;
        let mut alternatives: Vec<SelectorSequence> = Vec::new();
        alternatives.push(sq);
        let sel = Selector { alternatives };
        proof {
            assert(partv =~= universal_part());
            assert(sqv.parts =~= seq![universal_part()]);
            assert(sqv.combinators =~= Seq::<Combinator>::empty());
            assert(sel@.alternatives =~= seq![sqv]);
            assert(sel@ =~= universal_selector());
        }
        return Ok(sel);
    }
    let ghost target = alts_spec(s@, 0, Seq::empty());
    let mut alts: Vec<SelectorSequence> = Vec::new();
    let mut p: usize = 0;
    proof {
        assert(alts@.map_values(|x: SelectorSequence| x@) =~= Seq::<SequenceView>::empty());
    }
    loop
        invariant
            p <= cs@.len(),
            cs@ == s@,
            target == alts_spec(s@, 0, Seq::empty()),
            target == alts_spec(cs@, p as int, alts@.map_values(|x: SelectorSequence| x@)),
            forall|k: int| 0 <= k < alts@.len() ==> (#[trigger] alts@[k])@.wf(),
        decreases cs@.len() - p,
    {
        let q = skip_space_x(&cs, p);
        if q >= cs.len() {
            let sel = Selector { alternatives: alts };
            proof {
                assert(target == Ok::<SelectorView, SelectorSyntaxError>(sel@));
                assert forall|k: int| 0 <= k < sel@.alternatives.len() implies (
                #[trigger] sel@.alternatives[k]).wf() by {
                    assert(sel@.alternatives[k] == alts@[k]@);
                }
            }
            return Ok(sel);
        }
        if cs[q] == ',' {
            p = q + 1;
            continue;
        }
        match sequence_x(&cs, q) {
            Ok((sv, q2)) => {
                let ghost svv = sv@;
                let ghost before = alts@.map_values(|x: SelectorSequence| x@);
                alts.push(sv);
                proof {
                    assert(alts@.map_values(|x: SelectorSequence| x@) =~= before.push(svv));
                }
                if q2 >= cs.len() {
                    let sel = Selector { alternatives: alts };
                    proof {
                        assert(target == Ok::<SelectorView, SelectorSyntaxError>(sel@));
                        assert forall|k: int| 0 <= k < sel@.alternatives.len() implies (
                        #[trigger] sel@.alternatives[k]).wf() by {
                            assert(sel@.alternatives[k] == alts@[k]@);
                        }
                    }
                    return Ok(sel);
                }
                p = q2 + 1;
            },
            Err(err) => {
                proof {
                    assert(alts_spec(cs@, p as int, alts@.map_values(|x: SelectorSequence| x@))
                        == Err::<SelectorView, SelectorSyntaxError>(err));
                }
                return Err(err);
            },
        }
    }
}

} // verus!
