//! The meaning of a selector against an indexed document: which nodes a
//! compound part, a combinator sequence, and a whole selector match.
//!
//! Everything here is spec-level and speaks about `Seq<NodeView>` — the
//! resolved view of the arena — so the query executor's contract can
//! state exactly which node indices come back.

use vstd::prelude::*;
use crate::dom::{node_id_of, NodeView};
use crate::selector::{
    AttrSelView, Combinator, PartView, PseudoView, SelectorView, SequenceView, SimplePartView,
};
use crate::text::{contains_seq, is_prefix_of, is_suffix_of, ws_tokens};

verus! {

/// Index of the first occurrence of `x` in `s` (its length if absent).
pub open spec fn idx_in(s: Seq<int>, x: int) -> int
    decreases s.len(),
{
    if s.len() == 0 {
        0
    } else if s[0] == x {
        0
    } else {
        1 + idx_in(s.drop_first(), x)
    }
}

/// The sibling list of node `i`: its parent's children, or the node
/// alone when it has no parent.
pub open spec fn siblings(doc: Seq<NodeView>, i: int) -> Seq<int> {
    match doc[i].parent {
        Some(p) => doc[p].children,
        None => seq![i],
    }
}

/// The 1-based position of node `i` among its siblings.
pub open spec fn position_of(doc: Seq<NodeView>, i: int) -> int {
    idx_in(siblings(doc, i), i) + 1
}

/// The immediately preceding sibling of node `i`, if any.
pub open spec fn prev_sibling(doc: Seq<NodeView>, i: int) -> Option<int> {
    let sib = siblings(doc, i);
    let k = idx_in(sib, i);
    if 0 < k < sib.len() {
        Some(sib[k - 1])
    } else {
        None
    }
}

/// `a` is a proper ancestor of `i` (found along the parent chain).
pub open spec fn is_ancestor(doc: Seq<NodeView>, a: int, i: int) -> bool
    decreases (if i >= 0 {
        i
    } else {
        0
    }),
{
    if i <= 0 {
        false
    } else {
        match doc[i].parent {
            Some(p) => if p == a {
                true
            } else if 0 <= p < i {
                is_ancestor(doc, a, p)
            } else {
                false
            },
            None => false,
        }
    }
}

/// The `an+b` test: the 1-based position `p` equals `a*k + b` for some
/// `k >= 0` (with `a = 0` this means exactly `p == b`).
pub open spec fn nth_ok(a: int, b: int, p: int) -> bool {
    exists|k: nat| p == #[trigger] (a * k) + b
}

/// One attribute predicate holds of an attribute list: some entry has
/// the predicate's name and a value satisfying its operator.
pub open spec fn attr_sel_matches(sel: AttrSelView, attrs: Seq<crate::dom::AttrView>) -> bool {
    exists|k: int|
        0 <= k < attrs.len() && (#[trigger] attrs[k]).name == sel.name() && attr_op_matches(
            sel,
            attrs[k].value,
        )
}

/// The operator part of one attribute predicate, tested on a value.
pub open spec fn attr_op_matches(sel: AttrSelView, v: Seq<char>) -> bool {
    match sel {
        AttrSelView::Exists(_) => true,
        AttrSelView::Equals(_, x) => v == x,
        AttrSelView::StartsWith(_, x) => is_prefix_of(x, v),
        AttrSelView::EndsWith(_, x) => is_suffix_of(x, v),
        AttrSelView::Contains(_, x) => contains_seq(v, x),
        AttrSelView::ListContains(_, x) => ws_tokens(v).contains(x),
        AttrSelView::DashMatch(_, x) => v == x || is_prefix_of(x.push('-'), v),
    }
}

/// Node `i` is the one the id side index holds for value `v`: it has
/// that id and no later node (in build pre-order) has it too —
/// last-write-wins.
pub open spec fn id_matches(doc: Seq<NodeView>, i: int, v: Seq<char>) -> bool {
    &&& node_id_of(doc[i].attrs) == Some(v)
    &&& forall|j: int| i < j < doc.len() ==> node_id_of((#[trigger] doc[j]).attrs) != Some(v)
}

/// The element, id, class and attribute constraints of a simple part
/// hold of node `i`.
pub open spec fn simple_part_matches(doc: Seq<NodeView>, i: int, sp: SimplePartView) -> bool {
    &&& (sp.element matches Some(e) ==> doc[i].tag == e)
    &&& (sp.id matches Some(v) ==> id_matches(doc, i, v))
    &&& forall|k: int| 0 <= k < sp.classes.len() ==> doc[i].classes.contains(#[trigger] sp.classes[k])
    &&& forall|k: int|
        0 <= k < sp.attributes.len() ==> attr_sel_matches(#[trigger] sp.attributes[k], doc[i].attrs)
}

/// One pseudo-class constraint holds of node `i`.
pub open spec fn pseudo_matches(doc: Seq<NodeView>, i: int, ps: PseudoView) -> bool {
    match ps {
        PseudoView::FirstChild => position_of(doc, i) == 1,
        PseudoView::LastChild => position_of(doc, i) == siblings(doc, i).len(),
        PseudoView::NthChild(a, b) => nth_ok(a, b, position_of(doc, i)),
        PseudoView::NthLastChild(a, b) => nth_ok(
            a,
            b,
            siblings(doc, i).len() - position_of(doc, i) + 1,
        ),
        PseudoView::FirstOfType => forall|m: int|
            0 <= m < idx_in(siblings(doc, i), i) ==> doc[#[trigger] siblings(doc, i)[m]].tag
                != doc[i].tag,
        PseudoView::LastOfType => forall|m: int|
            idx_in(siblings(doc, i), i) < m < siblings(doc, i).len() ==> doc[#[trigger] siblings(
                doc,
                i,
            )[m]].tag != doc[i].tag,
        PseudoView::OnlyChild => siblings(doc, i).len() == 1,
        PseudoView::OnlyOfType => forall|m: int|
            0 <= m < siblings(doc, i).len() && m != idx_in(siblings(doc, i), i) ==> doc[
                #[trigger] siblings(doc, i)[m]
            ].tag != doc[i].tag,
        PseudoView::Empty => doc[i].children.len() == 0,
        PseudoView::Not(sp) => !simple_part_matches(doc, i, sp),
    }
}

/// All constraints of one compound part hold of node `i`.
pub open spec fn part_matches(doc: Seq<NodeView>, i: int, pt: PartView) -> bool {
    &&& (pt.element matches Some(e) ==> doc[i].tag == e)
    &&& (pt.id matches Some(v) ==> id_matches(doc, i, v))
    &&& forall|k: int| 0 <= k < pt.classes.len() ==> doc[i].classes.contains(#[trigger] pt.classes[k])
    &&& forall|k: int|
        0 <= k < pt.attributes.len() ==> attr_sel_matches(#[trigger] pt.attributes[k], doc[i].attrs)
    &&& forall|k: int|
        0 <= k < pt.pseudo_classes.len() ==> pseudo_matches(
            doc,
            i,
            #[trigger] pt.pseudo_classes[k],
        )
}

/// Node `i` matches the sequence up to its part `k`: it satisfies part
/// `k`, and walking leftward, each combinator finds a satisfying node.
pub open spec fn seq_matches_upto(doc: Seq<NodeView>, i: int, sv: SequenceView, k: int) -> bool
    decreases (if k >= 0 {
        k
    } else {
        0
    }),
{
    if k <= 0 {
        part_matches(doc, i, sv.parts[0])
    } else {
        &&& part_matches(doc, i, sv.parts[k])
        &&& match sv.combinators[k - 1] {
            Combinator::Child => doc[i].parent matches Some(p) && seq_matches_upto(
                doc,
                p,
                sv,
                k - 1,
            ),
            Combinator::Descendant => exists|a: int|
                is_ancestor(doc, a, i) && seq_matches_upto(doc, a, sv, k - 1),
            Combinator::Adjacent => prev_sibling(doc, i) matches Some(s) && seq_matches_upto(
                doc,
                s,
                sv,
                k - 1,
            ),
            Combinator::GeneralSibling => exists|m: int|
                0 <= m < idx_in(siblings(doc, i), i) && seq_matches_upto(
                    doc,
                    #[trigger] siblings(doc, i)[m],
                    sv,
                    k - 1,
                ),
        }
    }
}

/// Node `i` matches one whole alternative.
pub open spec fn sequence_matches(doc: Seq<NodeView>, i: int, sv: SequenceView) -> bool {
    seq_matches_upto(doc, i, sv, sv.parts.len() - 1)
}

/// Node `i` matches the selector: it matches some alternative.
pub open spec fn selector_matches(doc: Seq<NodeView>, i: int, sel: SelectorView) -> bool {
    exists|a: int|
        0 <= a < sel.alternatives.len() && sequence_matches(doc, i, #[trigger] sel.alternatives[a])
}

/// A sequence of indices is strictly increasing.
pub open spec fn strictly_inc(v: Seq<usize>) -> bool {
    forall|j: int, k: int| 0 <= j < k < v.len() ==> v[j] < v[k]
}

/// The sequence holds `x`.
pub open spec fn holds_index(v: Seq<usize>, x: int) -> bool {
    exists|j: int| 0 <= j < v.len() && v[j] == x
}

/// What `query` promises of its result `v`: sorted strictly ascending
/// (hence deduplicated), within the arena, and holding exactly the
/// node indices the selector matches.
pub open spec fn query_post(doc: Seq<NodeView>, sel: SelectorView, v: Seq<usize>) -> bool {
    &&& strictly_inc(v)
    &&& forall|j: int| 0 <= j < v.len() ==> (#[trigger] v[j] as int) < doc.len()
    &&& forall|i: int| 0 <= i < doc.len() ==> (holds_index(v, i) <==> selector_matches(doc, i, sel))
}

/// The selector view the spec-level parser assigns to `s`, when it
/// parses.
pub open spec fn parsed(s: Seq<char>) -> SelectorView {
    match crate::parser::parse_spec(s) {
        Ok(v) => v,
        Err(_) => SelectorView { alternatives: Seq::empty() },
    }
}

/// Characterization of [`idx_in`]: the scan position where `x` first
/// occurs.
pub proof fn lemma_idx_in_at(s: Seq<int>, x: int, j: int)
    requires
        0 <= j < s.len(),
        s[j] == x,
        forall|m: int| 0 <= m < j ==> s[m] != x,
    ensures
        idx_in(s, x) == j,
    decreases s.len(),
{
    if j > 0 {
        let t = s.drop_first();
        assert forall|m: int| 0 <= m < j - 1 implies t[m] != x by {
            assert(t[m] == s[m + 1]);
        }
        assert(t[j - 1] == s[j]);
        lemma_idx_in_at(t, x, j - 1);
    }
}

/// [`idx_in`] is the length when `x` does not occur.
pub proof fn lemma_idx_in_absent(s: Seq<int>, x: int)
    requires
        forall|m: int| 0 <= m < s.len() ==> s[m] != x,
    ensures
        idx_in(s, x) == s.len(),
    decreases s.len(),
{
    if s.len() > 0 {
        let t = s.drop_first();
        assert forall|m: int| 0 <= m < t.len() implies t[m] != x by {
            assert(t[m] == s[m + 1]);
        }
        lemma_idx_in_absent(t, x);
    }
}

/// An ancestor's index is strictly below the node's.
pub proof fn lemma_ancestor_lt(doc: Seq<NodeView>, a: int, i: int)
    requires
        crate::dom::parents_ok(doc),
        0 <= i < doc.len(),
        is_ancestor(doc, a, i),
    ensures
        0 <= a < i,
    decreases i,
{
    if i > 0 {
        match doc[i].parent {
            Some(p) => {
                if p != a {
                    lemma_ancestor_lt(doc, a, p);
                }
            },
            None => {},
        }
    }
}

/// Stepping up from an ancestor stays an ancestor.
pub proof fn lemma_ancestor_parent(doc: Seq<NodeView>, cur: int, i: int, p: int)
    requires
        crate::dom::parents_ok(doc),
        0 <= i < doc.len(),
        is_ancestor(doc, cur, i),
        0 <= cur < doc.len(),
        doc[cur].parent == Some(p),
    ensures
        is_ancestor(doc, p, i),
    decreases i,
{
    lemma_ancestor_lt(doc, cur, i);
    match doc[i].parent {
        Some(pi) => {
            if pi == cur {
                assert(0 <= p < cur);
                assert(is_ancestor(doc, p, cur));
            } else {
                lemma_ancestor_parent(doc, cur, pi, p);
            }
        },
        None => {},
    }
}

/// At most one node can be the id index's holder for a value.
pub proof fn lemma_id_unique(doc: Seq<NodeView>, v: Seq<char>, i: int, j: int)
    requires
        0 <= i < doc.len(),
        0 <= j < doc.len(),
        id_matches(doc, i, v),
        id_matches(doc, j, v),
    ensures
        i == j,
{
    if i < j {
        assert(node_id_of(doc[j].attrs) != Some(v));
        assert(false);
    }
    if j < i {
        assert(node_id_of(doc[i].attrs) != Some(v));
        assert(false);
    }
}

/// The executable `an+b` test agrees with [`nth_ok`].
pub proof fn lemma_nth_equiv(a: int, b: int, p: int)
    ensures
        nth_ok(a, b, p) == (if a == 0 {
            p == b
        } else if a > 0 {
            p >= b && (p - b) % a == 0
        } else {
            p <= b && (b - p) % (-a) == 0
        }),
{
    if a == 0 {
        if p == b {
            assert(p == a * 0 + b);
        }
        if nth_ok(a, b, p) {
            let k = choose|k: nat| p == #[trigger] (a * k) + b;
            assert(a * k == 0) by (nonlinear_arith)
                requires
                    a == 0,
            ;
        }
    } else if a > 0 {
        if p >= b && (p - b) % a == 0 {
            let q = (p - b) / a;
            vstd::arithmetic::div_mod::lemma_fundamental_div_mod(p - b, a);
            assert(p - b == a * q);
            assert(q >= 0) by (nonlinear_arith)
                requires
                    a > 0,
                    p - b >= 0,
                    p - b == a * q,
            ;
            assert(p == a * (q as nat) + b);
        }
        if nth_ok(a, b, p) {
            let k = choose|k: nat| p == #[trigger] (a * k) + b;
            assert(a * k >= 0) by (nonlinear_arith)
                requires
                    a > 0,
                    k >= 0,
            ;
            assert(p >= b);
            assert((a * k) % a == 0) by {
                vstd::arithmetic::div_mod::lemma_mod_multiples_basic(k as int, a);
            }
        }
    } else {
        let na = -a;
        if p <= b && (b - p) % na == 0 {
            let q = (b - p) / na;
            vstd::arithmetic::div_mod::lemma_fundamental_div_mod(b - p, na);
            assert(b - p == na * q);
            assert(q >= 0) by (nonlinear_arith)
                requires
                    na > 0,
                    b - p >= 0,
                    b - p == na * q,
            ;
            let qn = q as nat;
            assert(qn == q);
            assert(a * qn == -(na * qn)) by (nonlinear_arith)
                requires
                    na == -a,
            ;
            assert(na * qn == na * q);
            assert(p == a * qn + b);
        }
        if nth_ok(a, b, p) {
            let k = choose|k: nat| p == #[trigger] (a * k) + b;
            assert(a * k <= 0) by (nonlinear_arith)
                requires
                    a < 0,
                    k >= 0,
            ;
            assert(p <= b);
            assert(b - p == na * k) by (nonlinear_arith)
                requires
                    na == -a,
                    p == a * k + b,
            ;
            assert((na * (k as int)) % na == 0) by {
                vstd::arithmetic::div_mod::lemma_mod_multiples_basic(k as int, na);
            }
        }
    }
}

/// Establishes membership from an explicit position.
pub proof fn lemma_holds_index_witness(v: Seq<usize>, j: int)
    requires
        0 <= j < v.len(),
    ensures
        holds_index(v, v[j] as int),
{
    assert(0 <= j < v.len() && (v[j] as int) == v[j] as int);
}

} // verus!
