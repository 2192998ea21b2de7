//! The document model: the parse tree handed in by the HTML-parsing
//! collaborator ([`RawNode`]), the indexed node it becomes
//! ([`IndexedNode`]), and the spec-level description of the build walk.
//!
//! The build is one depth-first pre-order traversal: node indices are
//! assigned in pre-order, are stable for the lifetime of the index, and
//! every child index is greater than its parent's.  Element nodes are
//! always materialized; text nodes only when their trimmed text is
//! non-empty (so whitespace-only text never becomes an arena child);
//! comments and doctypes never are.  Node 0 is the document root.

use vstd::prelude::*;
use crate::interner::{interner_strings, strings_extend, Interner};
use crate::srcmap::position_spec;
use crate::text::{find_first, trim_spec, ws_tokens};

verus! {

/// One attribute of an element in the external parse tree.
#[derive(Debug, Clone, PartialEq, Eq)]
pub struct RawAttribute {
    pub name: String,
    pub value: String,
}

/// A node of the external parse tree: what the HTML-parsing
/// collaborator hands over (a discriminant, tag and attributes for
/// elements, raw text for text nodes, ordered children).
#[derive(Debug, PartialEq, Eq)]
pub enum RawNode {
    /// The document root.
    Document { children: Vec<RawNode> },
    /// An element with its tag, ordered attributes and children.
    Element { tag: String, attrs: Vec<RawAttribute>, children: Vec<RawNode> },
    /// A text node holding raw text.
    Text { text: String },
    /// A comment; never materialized in the arena.
    Comment { text: String },
    /// A doctype declaration; never materialized in the arena.
    Doctype,
}

/// How an attribute value would be quoted when the opening tag is
/// reconstructed: derived from whether the value text contains a
/// single quote.
#[derive(Clone, Copy, PartialEq, Eq, Structural, Debug)]
pub enum QuotesType {
    Single,
    Double,
}

/// One attribute of an indexed node: interned name and value plus the
/// derived quote style.
#[derive(Debug, Clone)]
pub struct IndexedAttribute {
    pub name: usize,
    pub value: usize,
    pub quotes_type: QuotesType,
}

/// Best-effort source location of a node: 1-based line and column and
/// the reconstructed source snippet, or `(0, 0, "")` when the snippet
/// does not occur in the document text.
#[derive(Debug, Clone)]
pub struct SourceInfo {
    pub line: usize,
    pub column: usize,
    pub source: String,
}

/// One node of the arena: interned tag (the empty string's symbol for
/// non-elements), attributes, class set, tree links by index, trimmed
/// direct text, and source location.
#[derive(Debug)]
pub struct IndexedNode {
    pub tag_name: usize,
    pub attributes: Vec<IndexedAttribute>,
    pub classes: Vec<usize>,
    pub parent: Option<usize>,
    pub children: Vec<usize>,
    pub source_info: SourceInfo,
    pub text_content: Option<usize>,
}

/// Spec-level form of one attribute: resolved strings.
#[verifier::ext_equal]
pub struct AttrView {
    pub name: Seq<char>,
    pub value: Seq<char>,
    pub quotes: QuotesType,
}

/// Spec-level form of one arena node, with every symbol resolved.
#[verifier::ext_equal]
pub struct NodeView {
    pub tag: Seq<char>,
    pub attrs: Seq<AttrView>,
    pub classes: Seq<Seq<char>>,
    pub parent: Option<int>,
    pub children: Seq<int>,
    pub text: Option<Seq<char>>,
    pub line: int,
    pub column: int,
    pub snippet: Seq<char>,
}

/// The string a symbol stands for.
pub open spec fn sym_str(strings: Seq<Seq<char>>, s: usize) -> Seq<char> {
    strings[s as int]
}

/// The view of one arena node under a symbol table.
pub open spec fn node_view(strings: Seq<Seq<char>>, n: IndexedNode) -> NodeView {
    NodeView {
        tag: sym_str(strings, n.tag_name),
        attrs: n.attributes@.map_values(
            |a: IndexedAttribute|
                AttrView {
                    name: sym_str(strings, a.name),
                    value: sym_str(strings, a.value),
                    quotes: a.quotes_type,
                },
        ),
        classes: n.classes@.map_values(|c: usize| sym_str(strings, c)),
        parent: match n.parent {
            Some(p) => Some(p as int),
            None => None,
        },
        children: n.children@.map_values(|c: usize| c as int),
        text: match n.text_content {
            Some(t) => Some(sym_str(strings, t)),
            None => None,
        },
        line: n.source_info.line as int,
        column: n.source_info.column as int,
        snippet: n.source_info.source@,
    }
}

/// Every symbol of the node is in range for the table.
pub open spec fn node_syms_ok(strings: Seq<Seq<char>>, n: IndexedNode) -> bool {
    &&& (n.tag_name as int) < strings.len()
    &&& forall|k: int|
        0 <= k < n.attributes@.len() ==> ((#[trigger] n.attributes@[k]).name as int)
            < strings.len() && (n.attributes@[k].value as int) < strings.len()
    &&& forall|k: int|
        0 <= k < n.classes@.len() ==> ((#[trigger] n.classes@[k]) as int) < strings.len()
    &&& (n.text_content matches Some(t) ==> (t as int) < strings.len())
}

/// Every symbol of every node is in range for the table.
pub open spec fn arena_syms_ok(strings: Seq<Seq<char>>, arena: Seq<IndexedNode>) -> bool {
    forall|i: int| 0 <= i < arena.len() ==> node_syms_ok(strings, #[trigger] arena[i])
}

/// The views of all arena nodes under a symbol table.
pub open spec fn doc_view(strings: Seq<Seq<char>>, arena: Seq<IndexedNode>) -> Seq<NodeView> {
    arena.map_values(|n: IndexedNode| node_view(strings, n))
}

/// A node's view does not change when the symbol table grows.
pub proof fn lemma_node_view_stable(s1: Seq<Seq<char>>, s2: Seq<Seq<char>>, n: IndexedNode)
    requires
        strings_extend(s1, s2),
        node_syms_ok(s1, n),
    ensures
        node_view(s2, n) == node_view(s1, n),
{
    assert(node_view(s2, n).attrs =~= node_view(s1, n).attrs);
    assert(node_view(s2, n).classes =~= node_view(s1, n).classes);
    assert(node_view(s2, n) =~= node_view(s1, n));
}

/// A document's view does not change when the symbol table grows.
pub proof fn lemma_doc_view_stable(s1: Seq<Seq<char>>, s2: Seq<Seq<char>>, arena: Seq<IndexedNode>)
    requires
        strings_extend(s1, s2),
        arena_syms_ok(s1, arena),
    ensures
        doc_view(s2, arena) == doc_view(s1, arena),
{
    assert forall|i: int| 0 <= i < arena.len() implies node_view(s2, arena[i]) == node_view(
        s1,
        arena[i],
    ) by {
        lemma_node_view_stable(s1, s2, arena[i]);
    }
    assert(doc_view(s2, arena) =~= doc_view(s1, arena));
}

/// The attribute name `id`.
pub open spec fn id_name() -> Seq<char> {
    seq!['i', 'd']
}

/// The attribute name `class`.
pub open spec fn class_name() -> Seq<char> {
    seq!['c', 'l', 'a', 's', 's']
}

/// The value of the last attribute named `id`, if any: the id under
/// which the node is registered in the id side index.
pub open spec fn node_id_of(attrs: Seq<AttrView>) -> Option<Seq<char>>
    decreases attrs.len(),
{
    if attrs.len() == 0 {
        None
    } else if attrs.last().name == id_name() {
        Some(attrs.last().value)
    } else {
        node_id_of(attrs.drop_last())
    }
}

/// The value contains a single-quote character.
pub open spec fn has_single_quote(v: Seq<char>) -> bool {
    exists|i: int| 0 <= i < v.len() && v[i] == '\''
}

/// The quote style recorded for an attribute value.
pub open spec fn quote_of(v: Seq<char>) -> QuotesType {
    if has_single_quote(v) {
        QuotesType::Single
    } else {
        QuotesType::Double
    }
}

/// The views of an element's raw attributes.
pub open spec fn attrs_view_of(attrs: Seq<RawAttribute>) -> Seq<AttrView> {
    attrs.map_values(
        |a: RawAttribute| AttrView { name: a.name@, value: a.value@, quotes: quote_of(a.value@) },
    )
}

/// The class tokens of an element: each attribute named `class`, split
/// on whitespace, in attribute order; duplicates preserved.
pub open spec fn classes_of(attrs: Seq<RawAttribute>) -> Seq<Seq<char>>
    decreases attrs.len(),
{
    if attrs.len() == 0 {
        Seq::empty()
    } else {
        (if attrs[0].name@ == class_name() {
            ws_tokens(attrs[0].value@)
        } else {
            Seq::empty()
        }) + classes_of(attrs.drop_first())
    }
}

/// The reconstructed rendering of the attributes of an opening tag.
pub open spec fn render_attrs(attrs: Seq<RawAttribute>) -> Seq<char>
    decreases attrs.len(),
{
    if attrs.len() == 0 {
        Seq::empty()
    } else {
        seq![' '] + attrs[0].name@ + seq!['='] + (if has_single_quote(attrs[0].value@) {
            seq!['"'] + attrs[0].value@ + seq!['"']
        } else {
            seq!['\''] + attrs[0].value@ + seq!['\'']
        }) + render_attrs(attrs.drop_first())
    }
}

/// The reconstructed opening-tag string of an element.
pub open spec fn render_tag(tag: Seq<char>, attrs: Seq<RawAttribute>) -> Seq<char> {
    seq!['<'] + tag + render_attrs(attrs) + seq!['>']
}

/// The source location assigned to a snippet: the position of its
/// first occurrence in the document text, or `(0, 0, "")` when it does
/// not occur (first occurrence always wins, so repeated identical
/// opening tags are attributed to the first).
pub open spec fn locate(source: Seq<char>, snippet: Seq<char>) -> (int, int, Seq<char>) {
    match find_first(source, snippet) {
        Some(o) => {
            let pos = position_spec(source, o);
            (pos.0, pos.1, snippet)
        },
        None => (0, 0, Seq::empty()),
    }
}

/// A text node is materialized exactly when its trimmed text is
/// non-empty.
pub open spec fn text_materialized(text: Seq<char>) -> bool {
    trim_spec(text).len() > 0
}

/// Number of arena slots a subtree occupies.
pub open spec fn subtree_size(t: RawNode) -> nat
    decreases t,
{
    match t {
        RawNode::Element { children, .. } => 1 + children_size(children@),
        RawNode::Text { text } => if text_materialized(text@) {
            1nat
        } else {
            0nat
        },
        _ => 0,
    }
}

/// Number of arena slots a child list occupies.
pub open spec fn children_size(cs: Seq<RawNode>) -> nat
    decreases cs,
{
    if cs.len() == 0 {
        0
    } else {
        subtree_size(cs[0]) + children_size(cs.drop_first())
    }
}

/// The arena indices of the materialized children of a child list,
/// when the first free index is `next`.
pub open spec fn child_index_list(cs: Seq<RawNode>, next: int) -> Seq<int>
    decreases cs,
{
    if cs.len() == 0 {
        Seq::empty()
    } else {
        (if subtree_size(cs[0]) > 0 {
            seq![next]
        } else {
            Seq::empty()
        }) + child_index_list(cs.drop_first(), next + subtree_size(cs[0]))
    }
}

/// The view of an element node placed at index `base`.
pub open spec fn element_view(
    tag: Seq<char>,
    attrs: Seq<RawAttribute>,
    children: Seq<RawNode>,
    source: Seq<char>,
    base: int,
    parent: Option<int>,
) -> NodeView {
    let loc = locate(source, render_tag(tag, attrs));
    NodeView {
        tag: tag,
        attrs: attrs_view_of(attrs),
        classes: classes_of(attrs),
        parent: parent,
        children: child_index_list(children, base + 1),
        text: None,
        line: loc.0,
        column: loc.1,
        snippet: loc.2,
    }
}

/// The view of a materialized text node.
pub open spec fn text_view(text: Seq<char>, parent: Option<int>) -> NodeView {
    NodeView {
        tag: Seq::empty(),
        attrs: Seq::empty(),
        classes: Seq::empty(),
        parent: parent,
        children: Seq::empty(),
        text: Some(trim_spec(text)),
        line: 0,
        column: 0,
        snippet: Seq::empty(),
    }
}

/// The view of the document-root slot.
pub open spec fn document_view(children: Seq<RawNode>) -> NodeView {
    NodeView {
        tag: Seq::empty(),
        attrs: Seq::empty(),
        classes: Seq::empty(),
        parent: None,
        children: child_index_list(children, 1),
        text: None,
        line: 0,
        column: 0,
        snippet: Seq::empty(),
    }
}

/// The arena views a subtree contributes, in pre-order, when its root
/// goes to index `base` under the given parent.
pub open spec fn subtree_views(
    t: RawNode,
    source: Seq<char>,
    base: int,
    parent: Option<int>,
) -> Seq<NodeView>
    decreases t,
{
    match t {
        RawNode::Element { tag, attrs, children } => seq![
            element_view(tag@, attrs@, children@, source, base, parent),
        ] + children_views(children@, source, base + 1, base),
        RawNode::Text { text } => if text_materialized(text@) {
            seq![text_view(text@, parent)]
        } else {
            Seq::empty()
        },
        _ => Seq::empty(),
    }
}

/// The arena views a child list contributes, in order, starting at
/// index `next`, all under parent index `parent`.
pub open spec fn children_views(
    cs: Seq<RawNode>,
    source: Seq<char>,
    next: int,
    parent: int,
) -> Seq<NodeView>
    decreases cs,
{
    if cs.len() == 0 {
        Seq::empty()
    } else {
        subtree_views(cs[0], source, next, Some(parent)) + children_views(
            cs.drop_first(),
            source,
            next + subtree_size(cs[0]),
            parent,
        )
    }
}

/// The whole arena of a document rooted at `root`: an element or
/// non-blank text root is indexed directly; a document root gets the
/// root slot with its materialized children behind it; anything else
/// yields a bare root slot.
pub open spec fn doc_spec(root: RawNode, source: Seq<char>) -> Seq<NodeView> {
    match root {
        RawNode::Element { .. } => subtree_views(root, source, 0, None),
        RawNode::Text { text } => if text_materialized(text@) {
            subtree_views(root, source, 0, None)
        } else {
            seq![document_view(Seq::empty())]
        },
        RawNode::Document { children } => seq![document_view(children@)] + children_views(
            children@,
            source,
            1,
            0,
        ),
        _ => seq![document_view(Seq::empty())],
    }
}

/// The root has a doctype-typed child.
pub open spec fn has_doctype_spec(root: RawNode) -> bool {
    match root {
        RawNode::Document { children } => exists|k: int|
            0 <= k < children@.len() && children@[k] is Doctype,
        RawNode::Element { children, .. } => exists|k: int|
            0 <= k < children@.len() && children@[k] is Doctype,
        _ => false,
    }
}

/// A subtree contributes exactly as many views as its size.
pub proof fn lemma_subtree_views_len(t: RawNode, source: Seq<char>, base: int, parent: Option<int>)
    ensures
        subtree_views(t, source, base, parent).len() == subtree_size(t),
    decreases t,
{
    match t {
        RawNode::Element { tag, attrs, children } => {
            lemma_children_views_len(children@, source, base + 1, base);
        },
        _ => {},
    }
}

/// A child list contributes exactly as many views as its size.
pub proof fn lemma_children_views_len(cs: Seq<RawNode>, source: Seq<char>, next: int, parent: int)
    ensures
        children_views(cs, source, next, parent).len() == children_size(cs),
    decreases cs,
{
    if cs.len() > 0 {
        lemma_subtree_views_len(cs[0], source, next, Some(parent));
        lemma_children_views_len(cs.drop_first(), source, next + subtree_size(cs[0]), parent);
    }
}

/// Appending one more child to a list appends its views.
pub proof fn lemma_children_views_push(
    cs: Seq<RawNode>,
    c: RawNode,
    source: Seq<char>,
    next: int,
    parent: int,
)
    ensures
        children_views(cs.push(c), source, next, parent) == children_views(cs, source, next, parent)
            + subtree_views(c, source, next + children_size(cs), Some(parent)),
        children_size(cs.push(c)) == children_size(cs) + subtree_size(c),
        child_index_list(cs.push(c), next) == child_index_list(cs, next) + (if subtree_size(c) > 0 {
            seq![next + children_size(cs)]
        } else {
            Seq::<int>::empty()
        }),
    decreases cs.len(),
{
    reveal_with_fuel(children_views, 2);
    reveal_with_fuel(children_size, 2);
    reveal_with_fuel(child_index_list, 2);
    if cs.len() == 0 {
        assert(cs.push(c)[0] == c);
        assert(cs.push(c).drop_first() =~= Seq::<RawNode>::empty());
        assert(children_views(Seq::empty(), source, next + subtree_size(c), parent)
            == Seq::<NodeView>::empty());
        assert(children_views(cs.push(c), source, next, parent) =~= subtree_views(
            c,
            source,
            next,
            Some(parent),
        ));
        assert(child_index_list(cs.push(c), next) =~= (if subtree_size(c) > 0 {
            seq![next]
        } else {
            Seq::<int>::empty()
        }));
    } else {
        assert(cs.push(c)[0] == cs[0]);
        assert(cs.push(c).drop_first() =~= cs.drop_first().push(c));
        lemma_children_views_push(
            cs.drop_first(),
            c,
            source,
            next + subtree_size(cs[0]),
            parent,
        );
        assert(children_views(cs.push(c), source, next, parent) =~= children_views(
            cs,
            source,
            next,
            parent,
        ) + subtree_views(c, source, next + children_size(cs), Some(parent)));
        assert(child_index_list(cs.push(c), next) =~= child_index_list(cs, next) + (if subtree_size(
            c,
        ) > 0 {
            seq![next + children_size(cs)]
        } else {
            Seq::<int>::empty()
        }));
    }
}

/// Parent links point strictly backward.
pub open spec fn parents_ok(doc: Seq<NodeView>) -> bool {
    forall|i: int|
        0 <= i < doc.len() ==> ((#[trigger] doc[i]).parent matches Some(p) ==> 0 <= p < i)
}

/// Child links point strictly forward and stay inside the arena.
pub open spec fn children_ok(doc: Seq<NodeView>) -> bool {
    forall|i: int, c: int|
        0 <= i < doc.len() && 0 <= c < doc[i].children.len() ==> i < #[trigger] doc[i].children[c]
            < doc.len()
}

/// Bounds of the indices a child list is assigned.
pub proof fn lemma_child_index_list_bounds(cs: Seq<RawNode>, next: int)
    ensures
        forall|j: int|
            0 <= j < child_index_list(cs, next).len() ==> next <= #[trigger] child_index_list(
                cs,
                next,
            )[j] < next + children_size(cs),
    decreases cs,
{
    if cs.len() > 0 {
        lemma_child_index_list_bounds(cs.drop_first(), next + subtree_size(cs[0]));
        let full = child_index_list(cs, next);
        let head_len: int = if subtree_size(cs[0]) > 0 {
            1
        } else {
            0
        };
        assert forall|j: int| 0 <= j < full.len() implies next <= #[trigger] full[j] < next
            + children_size(cs) by {
            if j >= head_len {
                assert(full[j] == child_index_list(cs.drop_first(), next + subtree_size(cs[0]))[j
                    - head_len]);
            }
        }
    }
}

/// Structure of the views one subtree contributes: every parent link
/// points backward (to the given parent or within the subtree), and
/// every child link stays within the subtree.
pub proof fn lemma_subtree_struct(t: RawNode, source: Seq<char>, base: int, parent: Option<int>)
    requires
        parent matches Some(pv) ==> 0 <= pv < base,
        0 <= base,
    ensures
        forall|k: int|
            0 <= k < subtree_views(t, source, base, parent).len() ==> ((#[trigger] subtree_views(
                t,
                source,
                base,
                parent,
            )[k]).parent matches Some(p) ==> 0 <= p < base + k),
        forall|k: int, c: int|
            0 <= k < subtree_views(t, source, base, parent).len() && 0 <= c < subtree_views(
                t,
                source,
                base,
                parent,
            )[k].children.len() ==> base + k < #[trigger] subtree_views(t, source, base, parent)[
                k
            ].children[c] < base + subtree_views(t, source, base, parent).len(),
    decreases t,
{
    let sub = subtree_views(t, source, base, parent);
    match t {
        RawNode::Element { tag, attrs, children } => {
            lemma_children_views_len(children@, source, base + 1, base);
            lemma_children_struct(children@, source, base + 1, base);
            lemma_child_index_list_bounds(children@, base + 1);
            let cvs = children_views(children@, source, base + 1, base);
            assert forall|k: int| 0 <= k < sub.len() implies ((#[trigger] sub[k]).parent
                matches Some(p) ==> 0 <= p < base + k) by {
                if k >= 1 {
                    assert(sub[k] == cvs[k - 1]);
                }
            }
            assert forall|k: int, c: int|
                0 <= k < sub.len() && 0 <= c < sub[k].children.len() implies base + k
                < #[trigger] sub[k].children[c] < base + sub.len() by {
                if k == 0 {
                    assert(sub[0].children == child_index_list(children@, base + 1));
                } else {
                    assert(sub[k] == cvs[k - 1]);
                }
            }
        },
        _ => {},
    }
}

/// Structure of the views a child list contributes, starting at
/// `next`, all under a parent strictly before `next`.
pub proof fn lemma_children_struct(cs: Seq<RawNode>, source: Seq<char>, next: int, parent: int)
    requires
        0 <= parent < next,
    ensures
        forall|k: int|
            0 <= k < children_views(cs, source, next, parent).len() ==> ((
            #[trigger] children_views(cs, source, next, parent)[k]).parent matches Some(p) ==> 0
                <= p < next + k),
        forall|k: int, c: int|
            0 <= k < children_views(cs, source, next, parent).len() && 0 <= c < children_views(
                cs,
                source,
                next,
                parent,
            )[k].children.len() ==> next + k < #[trigger] children_views(cs, source, next, parent)[
                k
            ].children[c] < next + children_views(cs, source, next, parent).len(),
    decreases cs,
{
    if cs.len() > 0 {
        let head = subtree_views(cs[0], source, next, Some(parent));
        let rest = children_views(
            cs.drop_first(),
            source,
            next + subtree_size(cs[0]),
            parent,
        );
        lemma_subtree_views_len(cs[0], source, next, Some(parent));
        lemma_children_views_len(cs.drop_first(), source, next + subtree_size(cs[0]), parent);
        lemma_subtree_struct(cs[0], source, next, Some(parent));
        lemma_children_struct(cs.drop_first(), source, next + subtree_size(cs[0]), parent);
        let full = children_views(cs, source, next, parent);
        assert forall|k: int| 0 <= k < full.len() implies ((#[trigger] full[k]).parent
            matches Some(p) ==> 0 <= p < next + k) by {
            if k < head.len() {
                assert(full[k] == head[k]);
            } else {
                assert(full[k] == rest[k - head.len()]);
            }
        }
        assert forall|k: int, c: int|
            0 <= k < full.len() && 0 <= c < full[k].children.len() implies next + k < #[trigger] full[
            k].children[c] < next + full.len() by {
            if k < head.len() {
                assert(full[k] == head[k]);
            } else {
                assert(full[k] == rest[k - head.len()]);
            }
        }
    }
}

/// The whole built document has backward parents and in-range children.
pub proof fn lemma_doc_spec_struct(root: RawNode, source: Seq<char>)
    ensures
        parents_ok(doc_spec(root, source)),
        children_ok(doc_spec(root, source)),
        doc_spec(root, source).len() >= 1,
{
    let doc = doc_spec(root, source);
    match root {
        RawNode::Element { .. } => {
            lemma_subtree_struct(root, source, 0, None);
            lemma_subtree_views_len(root, source, 0, None);
        },
        RawNode::Text { text } => {
            if text_materialized(text@) {
                lemma_subtree_struct(root, source, 0, None);
                lemma_subtree_views_len(root, source, 0, None);
            } else {
                assert(child_index_list(Seq::empty(), 1) =~= Seq::<int>::empty());
            }
        },
        RawNode::Document { children } => {
            lemma_children_struct(children@, source, 1, 0);
            lemma_children_views_len(children@, source, 1, 0);
            lemma_child_index_list_bounds(children@, 1);
            let cvs = children_views(children@, source, 1, 0);
            assert forall|i: int| 0 <= i < doc.len() implies ((#[trigger] doc[i]).parent
                matches Some(p) ==> 0 <= p < i) by {
                if i >= 1 {
                    assert(doc[i] == cvs[i - 1]);
                }
            }
            assert forall|i: int, c: int|
                0 <= i < doc.len() && 0 <= c < doc[i].children.len() implies 0 <= #[trigger] doc[
            i].children[c] < doc.len() by {
                if i == 0 {
                    assert(doc[0].children == child_index_list(children@, 1));
                } else {
                    assert(doc[i] == cvs[i - 1]);
                }
            }
        },
        _ => {
            assert(child_index_list(Seq::empty(), 1) =~= Seq::<int>::empty());
        },
    }
}

} // verus!
