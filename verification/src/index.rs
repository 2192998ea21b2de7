//! The indexed document: the node arena built by one pre-order walk of
//! the external parse tree, the side indices by tag, id and class, the
//! symbol table, the source map and the selector cache — all owned by
//! one [`DOMIndex`], populated at construction and read-only afterwards
//! except for the lazily growing selector cache.

use vstd::prelude::*;
use crate::cache::SelectorCache;
use crate::dom::{
    arena_syms_ok, attrs_view_of, child_index_list, children_ok, children_size, children_views,
    class_name, classes_of, doc_spec, doc_view, document_view, element_view, has_doctype_spec,
    has_single_quote, id_name, lemma_children_views_push, lemma_doc_spec_struct,
    lemma_doc_view_stable, lemma_node_view_stable, locate, node_id_of, node_view, node_syms_ok,
    parents_ok, quote_of, render_attrs, render_tag, subtree_size, subtree_views,
    text_materialized, text_view, AttrView, IndexedAttribute, IndexedNode, NodeView, QuotesType,
    RawAttribute, RawNode, SourceInfo,
};
use crate::interner::{
    interner_distinct, interner_strings, lemma_intern_keeps_distinct, strings_extend, Interner,
};
use crate::selector::{AttributeSelector, PseudoClass, Selector, SelectorPart, SelectorSequence, SimplePart};
use crate::sem::holds_index;
use crate::srcmap::SourceMap;
use crate::text::{
    chars_of, chars_to_string, contains_char, eq_str, find_sub, sub_chars, trim_chars, trim_spec,
    ws_tokens,
};

verus! {

/// The append-only, index-addressed store of indexed nodes.
pub struct NodeArena {
    nodes: Vec<IndexedNode>,
}

impl NodeArena {
    /// The stored nodes.
    pub closed spec fn view_nodes(&self) -> Seq<IndexedNode> {
        self.nodes@
    }

    /// An empty arena.
    pub fn new() -> (r: NodeArena)
        ensures
            r.view_nodes().len() == 0,
    {
        NodeArena { nodes: Vec::new() }
    }

    /// The node at `index`, or `None` when `index` is out of range;
    /// never panics.
    pub fn get(&self, index: usize) -> (r: Option<&IndexedNode>)
        ensures
            match r {
                Some(n) => (index as int) < self.view_nodes().len() && *n == self.view_nodes()[
                    index as int
                ],
                None => (index as int) >= self.view_nodes().len(),
            },
    {
        if index < self.nodes.len() {
            Some(&self.nodes[index])
        } else {
            None
        }
    }

    /// The number of nodes.
    pub fn len(&self) -> (r: usize)
        ensures
            r == self.view_nodes().len(),
    {
        self.nodes.len()
    }
}

proof fn lemma_classes_of_push(cs: Seq<RawAttribute>, a: RawAttribute)
    ensures
        classes_of(cs.push(a)) == classes_of(cs) + (if a.name@ == class_name() {
            ws_tokens(a.value@)
        } else {
            Seq::<Seq<char>>::empty()
        }),
    decreases cs.len(),
{
    reveal_with_fuel(classes_of, 2);
    if cs.len() == 0 {
        assert(cs.push(a)[0] == a);
        assert(cs.push(a).drop_first() =~= Seq::<RawAttribute>::empty());
        assert(classes_of(cs.push(a)) =~= (if a.name@ == class_name() {
            ws_tokens(a.value@)
        } else {
            Seq::<Seq<char>>::empty()
        }));
        assert(classes_of(cs) + (if a.name@ == class_name() {
            ws_tokens(a.value@)
        } else {
            Seq::<Seq<char>>::empty()
        }) =~= classes_of(cs.push(a)));
    } else {
        assert(cs.push(a)[0] == cs[0]);
        assert(cs.push(a).drop_first() =~= cs.drop_first().push(a));
        lemma_classes_of_push(cs.drop_first(), a);
        assert(classes_of(cs.push(a)) =~= classes_of(cs) + (if a.name@ == class_name() {
            ws_tokens(a.value@)
        } else {
            Seq::<Seq<char>>::empty()
        }));
    }
}

proof fn lemma_render_attrs_push(cs: Seq<RawAttribute>, a: RawAttribute)
    ensures
        render_attrs(cs.push(a)) == render_attrs(cs) + (seq![' '] + a.name@ + seq!['='] + (
        if has_single_quote(a.value@) {
            seq!['"'] + a.value@ + seq!['"']
        } else {
            seq!['\''] + a.value@ + seq!['\'']
        })),
    decreases cs.len(),
{
    reveal_with_fuel(render_attrs, 2);
    let piece = seq![' '] + a.name@ + seq!['='] + (if has_single_quote(a.value@) {
        seq!['"'] + a.value@ + seq!['"']
    } else {
        seq!['\''] + a.value@ + seq!['\'']
    });
    if cs.len() == 0 {
        assert(cs.push(a)[0] == a);
        assert(cs.push(a).drop_first() =~= Seq::<RawAttribute>::empty());
        assert(render_attrs(cs.push(a)) =~= piece);
        assert(render_attrs(cs) + piece =~= piece);
    } else {
        assert(cs.push(a)[0] == cs[0]);
        assert(cs.push(a).drop_first() =~= cs.drop_first().push(a));
        lemma_render_attrs_push(cs.drop_first(), a);
        assert(render_attrs(cs.push(a)) =~= render_attrs(cs) + piece);
    }
}

/// Interns the names and values of an element's attributes and collects
/// its class tokens.
fn build_attrs(it: &mut Interner, attrs: &Vec<RawAttribute>) -> (r: (
    Vec<IndexedAttribute>,
    Vec<Vec<char>>,
))
    requires
        interner_distinct(old(it)),
    ensures
        interner_distinct(final(it)),
        strings_extend(interner_strings(old(it)), interner_strings(final(it))),
        r.0@.len() == attrs@.len(),
        forall|k: int|
            0 <= k < attrs@.len() ==> {
                let ia = #[trigger] r.0@[k];
                &&& (ia.name as int) < interner_strings(final(it)).len()
                &&& (ia.value as int) < interner_strings(final(it)).len()
                &&& interner_strings(final(it))[ia.name as int] == attrs@[k].name@
                &&& interner_strings(final(it))[ia.value as int] == attrs@[k].value@
                &&& ia.quotes_type == quote_of(attrs@[k].value@)
            },
        r.1@.map_values(|t: Vec<char>| t@) == classes_of(attrs@),
{
    let mut iattrs: Vec<IndexedAttribute> = Vec::new();
    let mut tokens: Vec<Vec<char>> = Vec::new();
    let mut j: usize = 0;
    proof {
        assert(attrs@.subrange(0, 0) =~= Seq::<RawAttribute>::empty());
        assert(tokens@.map_values(|t: Vec<char>| t@) =~= classes_of(attrs@.subrange(0, 0)));
    }
    while j < attrs.len()
        invariant
            j <= attrs@.len(),
            interner_distinct(it),
            strings_extend(interner_strings(old(it)), interner_strings(it)),
            iattrs@.len() == j,
            forall|k: int|
                0 <= k < j ==> {
                    let ia = #[trigger] iattrs@[k];
                    &&& (ia.name as int) < interner_strings(it).len()
                    &&& (ia.value as int) < interner_strings(it).len()
                    &&& interner_strings(it)[ia.name as int] == attrs@[k].name@
                    &&& interner_strings(it)[ia.value as int] == attrs@[k].value@
                    &&& ia.quotes_type == quote_of(attrs@[k].value@)
                },
            tokens@.map_values(|t: Vec<char>| t@) == classes_of(attrs@.subrange(0, j as int)),
        decreases attrs@.len() - j,
    {
        let a = &attrs[j];
        let ghost strings0 = interner_strings(it);
        let name_sym = it.get_or_intern(a.name.as_str());
        proof {
            lemma_intern_keeps_distinct(strings0, interner_strings(it), a.name@);
        }
        let ghost strings1 = interner_strings(it);
        let value_sym = it.get_or_intern(a.value.as_str());
        proof {
            lemma_intern_keeps_distinct(strings1, interner_strings(it), a.value@);
        }
        let vchars = chars_of(a.value.as_str());
        let has_sq = contains_char(&vchars, '\'');
        let quotes_type = if has_sq {
            QuotesType::Single
        } else {
            QuotesType::Double
        };
        iattrs.push(IndexedAttribute { name: name_sym, value: value_sym, quotes_type });
        let nchars = chars_of(a.name.as_str());
        let ghost toks_before = tokens@.map_values(|t: Vec<char>| t@);
        proof {
            reveal_strlit("class");
            assert("class"@ =~= class_name());
        }
        if eq_str(&nchars, "class") {
            let split = crate::text::split_ws(&vchars);
            let mut m: usize = 0;
            let ghost split_view = split@.map_values(|t: Vec<char>| t@);
            proof {
                assert(toks_before + split_view.subrange(0, 0) =~= toks_before);
            }
            while m < split.len()
                invariant
                    m <= split@.len(),
                    split@.map_values(|t: Vec<char>| t@) == split_view,
                    tokens@.map_values(|t: Vec<char>| t@) == toks_before + split_view.subrange(
                        0,
                        m as int,
                    ),
                decreases split@.len() - m,
            {
                let ghost tb = tokens@.map_values(|t: Vec<char>| t@);
                let tk = crate::text::clone_chars(&split[m]);
                tokens.push(tk);
                proof {
                    assert(tokens@.map_values(|t: Vec<char>| t@) =~= tb.push(split_view[m as int]));
                    assert(tb.push(split_view[m as int]) =~= toks_before + split_view.subrange(
                        0,
                        m + 1 as int,
                    ));
                }
                m += 1;
            }
            proof {
                assert(split_view.subrange(0, split_view.len() as int) =~= split_view);
                assert(tokens@.map_values(|t: Vec<char>| t@) == toks_before + ws_tokens(a.value@));
            }
        }
        proof {
            assert(attrs@.subrange(0, j + 1 as int) =~= attrs@.subrange(0, j as int).push(
                attrs@[j as int],
            ));
            lemma_classes_of_push(attrs@.subrange(0, j as int), attrs@[j as int]);
            if a.name@ != class_name() {
                assert(tokens@.map_values(|t: Vec<char>| t@) =~= toks_before + Seq::<
                    Seq<char>,
                >::empty());
            }
            assert(tokens@.map_values(|t: Vec<char>| t@) == classes_of(
                attrs@.subrange(0, j + 1 as int),
            ));
        }
        j += 1;
    }
    proof {
        assert(attrs@.subrange(0, attrs@.len() as int) =~= attrs@);
    }
    (iattrs, tokens)
}

/// Interns a list of class tokens.
fn intern_tokens(it: &mut Interner, toks: &Vec<Vec<char>>) -> (syms: Vec<usize>)
    requires
        interner_distinct(old(it)),
    ensures
        interner_distinct(final(it)),
        strings_extend(interner_strings(old(it)), interner_strings(final(it))),
        syms@.len() == toks@.len(),
        forall|k: int|
            0 <= k < toks@.len() ==> ((#[trigger] syms@[k]) as int) < interner_strings(
                final(it),
            ).len() && interner_strings(final(it))[syms@[k] as int] == toks@[k]@,
{
    let mut syms: Vec<usize> = Vec::new();
    let mut k: usize = 0;
    while k < toks.len()
        invariant
            k <= toks@.len(),
            interner_distinct(it),
            strings_extend(interner_strings(old(it)), interner_strings(it)),
            syms@.len() == k,
            forall|m: int|
                0 <= m < k ==> ((#[trigger] syms@[m]) as int) < interner_strings(it).len()
                    && interner_strings(it)[syms@[m] as int] == toks@[m]@,
        decreases toks@.len() - k,
    {
        let s = chars_to_string(&toks[k]);
        let ghost sp = interner_strings(it);
        let sym = it.get_or_intern(s.as_str());
        proof {
            lemma_intern_keeps_distinct(sp, interner_strings(it), s@);
        }
        syms.push(sym);
        k += 1;
    }
    syms
}

/// Reconstructs the opening-tag text of an element.
fn render_tag_x(tag: &String, attrs: &Vec<RawAttribute>) -> (r: Vec<char>)
    ensures
        r@ == render_tag(tag@, attrs@),
{
    let mut r: Vec<char> = Vec::new();
    r.push('<');
    let tc = chars_of(tag.as_str());
    let mut i: usize = 0;
    while i < tc.len()
        invariant
            i <= tc@.len(),
            tc@ == tag@,
            r@ == seq!['<'] + tag@.subrange(0, i as int),
        decreases tc@.len() - i,
    {
        r.push(tc[i]);
        proof {
            assert(r@ =~= seq!['<'] + tag@.subrange(0, i + 1 as int));
        }
        i += 1;
    }
    proof {
        assert(tag@.subrange(0, tag@.len() as int) =~= tag@);
        assert(render_attrs(attrs@.subrange(0, 0)) =~= Seq::<char>::empty());
        assert(r@ =~= seq!['<'] + tag@ + render_attrs(attrs@.subrange(0, 0)));
    }
    let mut j: usize = 0;
    while j < attrs.len()
        invariant
            j <= attrs@.len(),
            r@ == seq!['<'] + tag@ + render_attrs(attrs@.subrange(0, j as int)),
        decreases attrs@.len() - j,
    {
        let ghost before = r@;
        let a = &attrs[j];
        r.push(' ');
        let nc = chars_of(a.name.as_str());
        let mut m: usize = 0;
        while m < nc.len()
            invariant
                m <= nc@.len(),
                nc@ == a.name@,
                a == attrs@[j as int],
                r@ == before + seq![' '] + a.name@.subrange(0, m as int),
            decreases nc@.len() - m,
        {
            r.push(nc[m]);
            proof {
                assert(r@ =~= before + seq![' '] + a.name@.subrange(0, m + 1 as int));
            }
            m += 1;
        }
        proof {
            assert(a.name@.subrange(0, a.name@.len() as int) =~= a.name@);
        }
        r.push('=');
        let vc = chars_of(a.value.as_str());
        let q: char = if contains_char(&vc, '\'') {
            '"'
        } else {
            '\''
        };
        r.push(q);
        let ghost before_v = r@;
        let mut m2: usize = 0;
        while m2 < vc.len()
            invariant
                m2 <= vc@.len(),
                vc@ == a.value@,
                a == attrs@[j as int],
                r@ == before_v + a.value@.subrange(0, m2 as int),
            decreases vc@.len() - m2,
        {
            r.push(vc[m2]);
            proof {
                assert(r@ =~= before_v + a.value@.subrange(0, m2 + 1 as int));
            }
            m2 += 1;
        }
        r.push(q);
        proof {
            assert(a.value@.subrange(0, a.value@.len() as int) =~= a.value@);
            assert(attrs@.subrange(0, j + 1 as int) =~= attrs@.subrange(0, j as int).push(
                attrs@[j as int],
            ));
            lemma_render_attrs_push(attrs@.subrange(0, j as int), attrs@[j as int]);
            if has_single_quote(a.value@) {
                assert(r@ =~= seq!['<'] + tag@ + render_attrs(attrs@.subrange(0, j + 1 as int)));
            } else {
                assert(r@ =~= seq!['<'] + tag@ + render_attrs(attrs@.subrange(0, j + 1 as int)));
            }
        }
        j += 1;
    }
    r.push('>');
    proof {
        assert(attrs@.subrange(0, attrs@.len() as int) =~= attrs@);
        assert(r@ =~= render_tag(tag@, attrs@));
    }
    r
}

/// Locates a snippet in the document text: 1-based line and column of
/// its first occurrence and the snippet itself, or zeros and the empty
/// string when absent.
fn locate_x(src: &Vec<char>, smap: &SourceMap, snippet: &Vec<char>) -> (r: SourceInfo)
    requires
        smap.wf(),
        smap.wf_for(src@),
        snippet@.len() > 0,
    ensures
        (r.line as int, r.column as int, r.source@) == locate(src@, snippet@),
{
    let n = src.len();
    match find_sub(src, snippet) {
        Some(o) => {
            proof {
                crate::text::lemma_find_first_props(src@, snippet@);
                assert((o as int) + snippet@.len() <= n);
                assert(o < n <= usize::MAX);
            }
            let (line, column) = smap.get_position(o);
            SourceInfo { line, column, source: chars_to_string(snippet) }
        },
        None => SourceInfo { line: 0, column: 0, source: String::new() },
    }
}

/// One step of the build walk: appends the subtree of `node` to the
/// arena, in pre-order, under the given parent index.
#[verifier::loop_isolation(false)]
fn build_subtree(
    nodes: &mut Vec<IndexedNode>,
    it: &mut Interner,
    src: &Vec<char>,
    smap: &SourceMap,
    node: &RawNode,
    parent: Option<usize>,
)
    requires
        smap.wf(),
        smap.wf_for(src@),
        interner_distinct(old(it)),
        arena_syms_ok(interner_strings(old(it)), old(nodes)@),
    ensures
        interner_distinct(final(it)),
        strings_extend(interner_strings(old(it)), interner_strings(final(it))),
        arena_syms_ok(interner_strings(final(it)), final(nodes)@),
        final(nodes)@.len() == old(nodes)@.len() + subtree_size(*node),
        forall|i: int| 0 <= i < old(nodes)@.len() ==> final(nodes)@[i] == old(nodes)@[i],
        doc_view(interner_strings(final(it)), final(nodes)@) == doc_view(
            interner_strings(final(it)),
            old(nodes)@,
        ) + subtree_views(
            *node,
            src@,
            old(nodes)@.len() as int,
            match parent {
                Some(p) => Some(p as int),
                None => None,
            },
        ),
    decreases *node,
{
    let ghost parent_view: Option<int> = match parent {
        Some(p) => Some(p as int),
        None => None,
    };
    match node {
        RawNode::Text { text } => {
            let tc = chars_of(text.as_str());
            let trimmed = trim_chars(&tc);
            if trimmed.len() == 0 {
                proof {
                    assert(!text_materialized(text@));
                    assert(doc_view(interner_strings(it), nodes@) =~= doc_view(
                        interner_strings(it),
                        nodes@,
                    ) + subtree_views(*node, src@, nodes@.len() as int, parent_view));
                }
                return ;
            }
            let ts = chars_to_string(&trimmed);
            let ghost strings0 = interner_strings(it);
            let sym_t = it.get_or_intern(ts.as_str());
            proof {
                lemma_intern_keeps_distinct(strings0, interner_strings(it), ts@);
            }
            let ghost strings1 = interner_strings(it);
            let empty_sym = it.get_or_intern("");
            proof {
                reveal_strlit("");
                lemma_intern_keeps_distinct(strings1, interner_strings(it), ""@);
                assert(""@ =~= Seq::<char>::empty());
            }
            let ghost strings2 = interner_strings(it);
            let ghost doc_before = doc_view(strings2, nodes@);
            let n = IndexedNode {
                tag_name: empty_sym,
                attributes: Vec::new(),
                classes: Vec::new(),
                parent,
                children: Vec::new(),
                source_info: SourceInfo { line: 0, column: 0, source: String::new() },
                text_content: Some(sym_t),
            };
            proof {
                reveal_strlit("");
                assert(node_view(strings2, n).attrs =~= Seq::<AttrView>::empty());
                assert(node_view(strings2, n).classes =~= Seq::<Seq<char>>::empty());
                assert(node_view(strings2, n).children =~= Seq::<int>::empty());
                assert(strings2[sym_t as int] == trim_spec(text@));
                assert(node_view(strings2, n) =~= text_view(text@, parent_view));
            }
            nodes.push(n);
            proof {
                assert(doc_view(strings2, nodes@) =~= doc_before.push(
                    text_view(text@, parent_view),
                ));
                assert(doc_before.push(text_view(text@, parent_view)) =~= doc_before
                    + subtree_views(*node, src@, (nodes@.len() - 1) as int, parent_view));
            }
        },
        RawNode::Element { tag, attrs, children } => {
            let base = nodes.len();
            let ghost strings0 = interner_strings(it);
            let tag_sym = it.get_or_intern(tag.as_str());
            proof {
                lemma_intern_keeps_distinct(strings0, interner_strings(it), tag@);
            }
            let (iattrs, tokens) = build_attrs(it, attrs);
            let class_syms = intern_tokens(it, &tokens);
            let snippet = render_tag_x(tag, attrs);
            let info = locate_x(src, smap, &snippet);
            let ghost strings3 = interner_strings(it);
            let n = IndexedNode {
                tag_name: tag_sym,
                attributes: iattrs,
                classes: class_syms,
                parent,
                children: Vec::new(),
                source_info: info,
                text_content: None,
            };
            proof {
                assert(node_syms_ok(strings3, n));
                assert(node_view(strings3, n).attrs =~= attrs_view_of(attrs@));
                assert(node_view(strings3, n).classes =~= classes_of(attrs@));
            }
            nodes.push(n);
            let ghost arena_after_push = nodes@;
            let mut kids: Vec<usize> = Vec::new();
            let mut j: usize = 0;
            proof {
                assert(children@.subrange(0, 0) =~= Seq::<RawNode>::empty());
                assert(doc_view(strings3, nodes@) =~= doc_view(strings3, nodes@) + children_views(
                    children@.subrange(0, 0),
                    src@,
                    base + 1 as int,
                    base as int,
                ));
                assert(kids@.map_values(|x: usize| x as int) =~= child_index_list(
                    children@.subrange(0, 0),
                    base + 1 as int,
                ));
            }
            while j < children.len()
                invariant
                    j <= children@.len(),
                    smap.wf(),
                    smap.wf_for(src@),
                    base + 1 <= nodes@.len(),
                    interner_distinct(it),
                    strings_extend(strings3, interner_strings(it)),
                    strings_extend(interner_strings(old(it)), interner_strings(it)),
                    arena_syms_ok(interner_strings(it), nodes@),
                    nodes@.len() == arena_after_push.len() + children_size(
                        children@.subrange(0, j as int),
                    ),
                    forall|i: int|
                        0 <= i < arena_after_push.len() ==> nodes@[i] == arena_after_push[i],
                    arena_syms_ok(strings3, arena_after_push),
                    doc_view(interner_strings(it), nodes@) == doc_view(
                        interner_strings(it),
                        arena_after_push,
                    ) + children_views(
                        children@.subrange(0, j as int),
                        src@,
                        base + 1 as int,
                        base as int,
                    ),
                    kids@.map_values(|x: usize| x as int) == child_index_list(
                        children@.subrange(0, j as int),
                        base + 1 as int,
                    ),
                decreases children@.len() - j,
            {
                let before = nodes.len();
                let ghost strings_pre = interner_strings(it);
                let ghost nodes_head = nodes@;
                proof {
                    assert(decreases_to!(*node => *children));
                    assert(decreases_to!(*children => children@));
                    assert(decreases_to!(children@ => children@[j as int]));
                }
                build_subtree(nodes, it, src, smap, &children[j], Some(base));
                let ghost strings_post = interner_strings(it);
                proof {
                    lemma_doc_view_stable(strings_pre, strings_post, arena_after_push);
                    lemma_doc_view_stable(strings_pre, strings_post, nodes_head);
                    assert(children@.subrange(0, j + 1 as int) =~= children@.subrange(
                        0,
                        j as int,
                    ).push(children@[j as int]));
                    lemma_children_views_push(
                        children@.subrange(0, j as int),
                        children@[j as int],
                        src@,
                        base + 1 as int,
                        base as int,
                    );
                    assert(before == base + 1 + children_size(children@.subrange(0, j as int)));
                    assert(doc_view(strings_post, nodes@) == doc_view(strings_post, nodes_head)
                        + subtree_views(
                        children@[j as int],
                        src@,
                        before as int,
                        Some(base as int),
                    ));
                    assert(doc_view(strings_post, nodes@) =~= doc_view(
                        strings_post,
                        arena_after_push,
                    ) + children_views(
                        children@.subrange(0, j + 1 as int),
                        src@,
                        base + 1 as int,
                        base as int,
                    ));
                }
                proof {
                    assert(nodes@.len() - before == subtree_size(children@[j as int]));
                }
                if nodes.len() > before {
                    kids.push(before);
                    proof {
                        assert(subtree_size(children@[j as int]) > 0);
                        assert(kids@.map_values(|x: usize| x as int) =~= child_index_list(
                            children@.subrange(0, j as int),
                            base + 1 as int,
                        ).push(before as int));
                        assert(kids@.map_values(|x: usize| x as int) =~= child_index_list(
                            children@.subrange(0, j + 1 as int),
                            base + 1 as int,
                        ));
                    }
                } else {
                    proof {
                        assert(subtree_size(children@[j as int]) == 0);
                        assert(kids@.map_values(|x: usize| x as int) =~= child_index_list(
                            children@.subrange(0, j + 1 as int),
                            base + 1 as int,
                        ));
                    }
                }
                j += 1;
            }
            proof {
                assert(children@.subrange(0, children@.len() as int) =~= children@);
            }
            let ghost strings_f = interner_strings(it);
            let ghost arena_end = nodes@;
            let ghost old_node = nodes@[base as int];
            proof {
                assert(old_node == arena_after_push[base as int]);
            }
            nodes[base].children = kids;
            proof {
                let updated = nodes@[base as int];
                assert(updated.tag_name == old_node.tag_name);
                assert(node_syms_ok(strings_f, old_node));
                assert(node_syms_ok(strings_f, updated));
                assert forall|i: int| 0 <= i < nodes@.len() implies node_syms_ok(
                    strings_f,
                    #[trigger] nodes@[i],
                ) by {
                    if i != base {
                        assert(nodes@[i] == arena_end[i]);
                    }
                }
                lemma_node_view_stable(strings3, strings_f, old_node);
                assert(node_view(strings_f, updated).children =~= child_index_list(
                    children@,
                    base + 1 as int,
                ));
                assert(node_view(strings_f, updated) =~= element_view(
                    tag@,
                    attrs@,
                    children@,
                    src@,
                    base as int,
                    parent_view,
                ));
                lemma_doc_view_stable(strings3, strings_f, arena_after_push);
                assert forall|i: int|
                    0 <= i < nodes@.len() implies #[trigger] doc_view(strings_f, nodes@)[i] == (
                doc_view(strings_f, old(nodes)@) + subtree_views(
                    *node,
                    src@,
                    base as int,
                    parent_view,
                ))[i] by {
                    let target = doc_view(strings_f, old(nodes)@) + subtree_views(
                        *node,
                        src@,
                        base as int,
                        parent_view,
                    );
                    if i < base {
                        assert(nodes@[i] == arena_end[i]);
                        assert(arena_end[i] == arena_after_push[i]);
                        assert(arena_after_push[i] == old(nodes)@[i]);
                        assert(target[i] == node_view(strings_f, old(nodes)@[i]));
                    } else if i == base {
                        assert(target[base as int] == subtree_views(
                            *node,
                            src@,
                            base as int,
                            parent_view,
                        )[0]);
                    } else {
                        assert(nodes@[i] == arena_end[i]);
                        assert(doc_view(strings_f, arena_end)[i] == node_view(
                            strings_f,
                            arena_end[i],
                        ));
                        assert(doc_view(strings_f, arena_end)[i] == children_views(
                            children@,
                            src@,
                            base + 1 as int,
                            base as int,
                        )[i - base - 1]);
                        assert(target[i] == subtree_views(*node, src@, base as int, parent_view)[
                            i - base
                        ]);
                    }
                }
                assert(doc_view(strings_f, nodes@) =~= doc_view(strings_f, old(nodes)@)
                    + subtree_views(*node, src@, base as int, parent_view));
                assert forall|i: int| 0 <= i < old(nodes)@.len() implies nodes@[i] == old(
                    nodes,
                )@[i] by {
                    assert(nodes@[i] == arena_end[i]);
                    assert(arena_end[i] == arena_after_push[i]);
                }
            }
        },
        _ => {
            proof {
                assert(subtree_size(*node) == 0);
                assert(subtree_views(*node, src@, nodes@.len() as int, parent_view) =~= Seq::<
                    NodeView,
                >::empty());
                assert(doc_view(interner_strings(it), nodes@) =~= doc_view(
                    interner_strings(it),
                    nodes@,
                ) + subtree_views(*node, src@, nodes@.len() as int, parent_view));
            }
        },
    }
}

/// Builds the arena slots of a document root's children and collects
/// the root's child list.
#[verifier::loop_isolation(false)]
fn build_children(
    nodes: &mut Vec<IndexedNode>,
    it: &mut Interner,
    src: &Vec<char>,
    smap: &SourceMap,
    children: &Vec<RawNode>,
    parent: usize,
) -> (kids: Vec<usize>)
    requires
        smap.wf(),
        smap.wf_for(src@),
        interner_distinct(old(it)),
        arena_syms_ok(interner_strings(old(it)), old(nodes)@),
        parent < old(nodes)@.len(),
    ensures
        interner_distinct(final(it)),
        strings_extend(interner_strings(old(it)), interner_strings(final(it))),
        arena_syms_ok(interner_strings(final(it)), final(nodes)@),
        final(nodes)@.len() == old(nodes)@.len() + children_size(children@),
        forall|i: int| 0 <= i < old(nodes)@.len() ==> final(nodes)@[i] == old(nodes)@[i],
        doc_view(interner_strings(final(it)), final(nodes)@) == doc_view(
            interner_strings(final(it)),
            old(nodes)@,
        ) + children_views(children@, src@, old(nodes)@.len() as int, parent as int),
        kids@.map_values(|x: usize| x as int) == child_index_list(
            children@,
            old(nodes)@.len() as int,
        ),
{
    let start = nodes.len();
    let mut kids: Vec<usize> = Vec::new();
    let mut j: usize = 0;
    proof {
        assert(children@.subrange(0, 0) =~= Seq::<RawNode>::empty());
        assert(doc_view(interner_strings(it), nodes@) =~= doc_view(interner_strings(it), nodes@)
            + children_views(children@.subrange(0, 0), src@, start as int, parent as int));
        assert(kids@.map_values(|x: usize| x as int) =~= child_index_list(
            children@.subrange(0, 0),
            start as int,
        ));
    }
    while j < children.len()
        invariant
            j <= children@.len(),
            interner_distinct(it),
            strings_extend(interner_strings(old(it)), interner_strings(it)),
            arena_syms_ok(interner_strings(it), nodes@),
            nodes@.len() == start + children_size(children@.subrange(0, j as int)),
            forall|i: int| 0 <= i < start ==> nodes@[i] == old(nodes)@[i],
            doc_view(interner_strings(it), nodes@) == doc_view(
                interner_strings(it),
                old(nodes)@,
            ) + children_views(children@.subrange(0, j as int), src@, start as int, parent as int),
            kids@.map_values(|x: usize| x as int) == child_index_list(
                children@.subrange(0, j as int),
                start as int,
            ),
        decreases children@.len() - j,
    {
        let before = nodes.len();
        let ghost strings_pre = interner_strings(it);
        let ghost nodes_head = nodes@;
        proof {
            assert(decreases_to!(*children => children@));
            assert(decreases_to!(children@ => children@[j as int]));
        }
        build_subtree(nodes, it, src, smap, &children[j], Some(parent));
        let ghost strings_post = interner_strings(it);
        proof {
            lemma_doc_view_stable(strings_pre, strings_post, old(nodes)@);
            lemma_doc_view_stable(strings_pre, strings_post, nodes_head);
            assert(children@.subrange(0, j + 1 as int) =~= children@.subrange(0, j as int).push(
                children@[j as int],
            ));
            lemma_children_views_push(
                children@.subrange(0, j as int),
                children@[j as int],
                src@,
                start as int,
                parent as int,
            );
            assert(before == start + children_size(children@.subrange(0, j as int)));
            assert(doc_view(strings_post, nodes@) == doc_view(strings_post, nodes_head)
                + subtree_views(children@[j as int], src@, before as int, Some(parent as int)));
            assert(doc_view(strings_post, nodes@) =~= doc_view(strings_post, old(nodes)@)
                + children_views(
                children@.subrange(0, j + 1 as int),
                src@,
                start as int,
                parent as int,
            ));
            assert(nodes@.len() - before == subtree_size(children@[j as int]));
        }
        if nodes.len() > before {
            kids.push(before);
            proof {
                assert(subtree_size(children@[j as int]) > 0);
                assert(kids@.map_values(|x: usize| x as int) =~= child_index_list(
                    children@.subrange(0, j as int),
                    start as int,
                ).push(before as int));
                assert(kids@.map_values(|x: usize| x as int) =~= child_index_list(
                    children@.subrange(0, j + 1 as int),
                    start as int,
                ));
            }
        } else {
            proof {
                assert(subtree_size(children@[j as int]) == 0);
                assert(kids@.map_values(|x: usize| x as int) =~= child_index_list(
                    children@.subrange(0, j + 1 as int),
                    start as int,
                ));
            }
        }
        j += 1;
    }
    proof {
        assert(children@.subrange(0, children@.len() as int) =~= children@);
    }
    kids
}

/// The tag side index: for each symbol, the nodes carrying it as a
/// non-empty tag, in ascending order.
#[verifier::loop_isolation(false)]
fn index_elements(it: &Interner, nodes: &Vec<IndexedNode>, n_syms: usize) -> (r: Vec<Vec<usize>>)
    requires
        interner_distinct(it),
        n_syms == interner_strings(it).len(),
        arena_syms_ok(interner_strings(it), nodes@),
    ensures
        r@.len() == n_syms,
        forall|t: int, j: int|
            0 <= t < n_syms && 0 <= j < r@[t]@.len() ==> (#[trigger] r@[t]@[j] as int)
                < nodes@.len(),
        forall|t: int, i: int|
            0 <= t < n_syms && 0 <= i < nodes@.len() ==> (#[trigger] holds_index(r@[t]@, i)
                <==> doc_view(interner_strings(it), nodes@)[i].tag == interner_strings(it)[t]
                && interner_strings(it)[t].len() > 0),
{
    let ghost strings = interner_strings(it);
    let ghost doc = doc_view(strings, nodes@);
    let mut r: Vec<Vec<usize>> = Vec::new();
    let mut t: usize = 0;
    while t < n_syms
        invariant
            t <= n_syms,
            r@.len() == t,
            forall|u: int| 0 <= u < t ==> (#[trigger] r@[u]@).len() == 0,
        decreases n_syms - t,
    {
        r.push(Vec::new());
        t += 1;
    }
    let es_opt = it.get("");
    proof {
        reveal_strlit("");
        assert(""@ =~= Seq::<char>::empty());
    }
    let mut i: usize = 0;
    while i < nodes.len()
        invariant
            i <= nodes@.len(),
            r@.len() == n_syms,
            forall|t2: int, j: int|
                0 <= t2 < n_syms && 0 <= j < r@[t2]@.len() ==> (#[trigger] r@[t2]@[j] as int) < i,
            forall|t2: int, i2: int|
                0 <= t2 < n_syms && 0 <= i2 < i ==> (#[trigger] holds_index(r@[t2]@, i2)
                    <==> doc[i2].tag == strings[t2] && strings[t2].len() > 0),
        decreases nodes@.len() - i,
    {
        let tsym = nodes[i].tag_name;
        let reg = match es_opt {
            Some(es) => tsym != es,
            None => true,
        };
        proof {
            assert(doc[i as int].tag == strings[tsym as int]);
            if reg {
                assert(strings[tsym as int].len() > 0) by {
                    if strings[tsym as int].len() == 0 {
                        assert(strings[tsym as int] =~= ""@);
                        assert(strings.contains(""@));
                    }
                }
            } else {
                assert(strings[tsym as int].len() == 0);
            }
        }
        if reg {
            let ghost r_before = r@;
            let bucket = &mut r[tsym];
            bucket.push(i);
            proof {
                assert(r@[tsym as int]@ =~= r_before[tsym as int]@.push(i));
                assert forall|t2: int, i2: int|
                    0 <= t2 < n_syms && 0 <= i2 < i + 1 implies (#[trigger] holds_index(
                    r@[t2]@,
                    i2,
                ) <==> doc[i2].tag == strings[t2] && strings[t2].len() > 0) by {
                    if t2 != tsym as int {
                        assert(r@[t2]@ == r_before[t2]@);
                        if i2 == i as int {
                            if doc[i2].tag == strings[t2] && strings[t2].len() > 0 {
                                assert(strings[tsym as int] == strings[t2]);
                                assert(false);
                            }
                            if holds_index(r@[t2]@, i2) {
                                assert(false);
                            }
                        }
                    } else {
                        if i2 == i as int {
                            assert(r@[t2]@[r@[t2]@.len() - 1] == i);
                        } else {
                            if holds_index(r@[t2]@, i2) {
                                let j = choose|j: int|
                                    0 <= j < r@[t2]@.len() && r@[t2]@[j] == i2;
                                assert(j < r@[t2]@.len() - 1);
                                assert(r_before[t2]@[j] == i2);
                            }
                            if holds_index(r_before[t2]@, i2) {
                                let j = choose|j: int|
                                    0 <= j < r_before[t2]@.len() && r_before[t2]@[j] == i2;
                                assert(r@[t2]@[j] == i2);
                            }
                        }
                    }
                }
            }
        } else {
            proof {
                assert forall|t2: int, i2: int|
                    0 <= t2 < n_syms && 0 <= i2 < i + 1 implies (#[trigger] holds_index(
                    r@[t2]@,
                    i2,
                ) <==> doc[i2].tag == strings[t2] && strings[t2].len() > 0) by {
                    if i2 == i as int {
                        if doc[i2].tag == strings[t2] && strings[t2].len() > 0 {
                            assert(doc[i2].tag == strings[tsym as int]);
                            assert(false);
                        }
                        if holds_index(r@[t2]@, i2) {
                            assert(false);
                        }
                    }
                }
            }
        }
        i += 1;
    }
    r
}

proof fn lemma_node_id_at(attrs: Seq<AttrView>, j: int)
    requires
        0 <= j < attrs.len(),
        attrs[j].name == id_name(),
        forall|m: int| j < m < attrs.len() ==> (#[trigger] attrs[m]).name != id_name(),
    ensures
        node_id_of(attrs) == Some(attrs[j].value),
    decreases attrs.len(),
{
    if j == attrs.len() - 1 {
    } else {
        let t = attrs.drop_last();
        assert forall|m: int| j < m < t.len() implies (#[trigger] t[m]).name != id_name() by {
            assert(t[m] == attrs[m]);
        }
        assert(t[j] == attrs[j]);
        lemma_node_id_at(t, j);
    }
}

proof fn lemma_node_id_none(attrs: Seq<AttrView>)
    requires
        forall|m: int| 0 <= m < attrs.len() ==> (#[trigger] attrs[m]).name != id_name(),
    ensures
        node_id_of(attrs) == None::<Seq<char>>,
    decreases attrs.len(),
{
    if attrs.len() > 0 {
        let t = attrs.drop_last();
        assert forall|m: int| 0 <= m < t.len() implies (#[trigger] t[m]).name != id_name() by {
            assert(t[m] == attrs[m]);
        }
        lemma_node_id_none(t);
    }
}

/// The id side index: for each symbol, the last node (in pre-order)
/// registered under that id value, last-write-wins.
#[verifier::loop_isolation(false)]
fn index_ids(it: &Interner, nodes: &Vec<IndexedNode>, n_syms: usize) -> (r: Vec<Option<usize>>)
    requires
        interner_distinct(it),
        n_syms == interner_strings(it).len(),
        arena_syms_ok(interner_strings(it), nodes@),
    ensures
        r@.len() == n_syms,
        forall|v: int|
            0 <= v < n_syms ==> match #[trigger] r@[v] {
                Some(i) => (i as int) < nodes@.len() && crate::sem::id_matches(
                    doc_view(interner_strings(it), nodes@),
                    i as int,
                    interner_strings(it)[v],
                ),
                None => forall|m: int|
                    0 <= m < nodes@.len() ==> node_id_of(
                        #[trigger] doc_view(interner_strings(it), nodes@)[m].attrs,
                    ) != Some(interner_strings(it)[v]),
            },
        forall|m: int|
            0 <= m < nodes@.len() ==> (node_id_of(
                #[trigger] doc_view(interner_strings(it), nodes@)[m].attrs,
            ) matches Some(x) ==> interner_strings(it).contains(x)),
{
    let ghost strings = interner_strings(it);
    let ghost doc = doc_view(strings, nodes@);
    let mut r: Vec<Option<usize>> = Vec::new();
    let mut t: usize = 0;
    while t < n_syms
        invariant
            t <= n_syms,
            r@.len() == t,
            forall|u: int| 0 <= u < t ==> (#[trigger] r@[u]) is None,
        decreases n_syms - t,
    {
        r.push(None);
        t += 1;
    }
    let id_sym_opt = it.get("id");
    proof {
        reveal_strlit("id");
        assert("id"@ =~= id_name());
    }
    let mut i: usize = 0;
    while i < nodes.len()
        invariant
            i <= nodes@.len(),
            r@.len() == n_syms,
            forall|v: int|
                0 <= v < n_syms ==> match #[trigger] r@[v] {
                    Some(ip) => (ip as int) < i && node_id_of(doc[ip as int].attrs) == Some(
                        strings[v],
                    ) && forall|m: int|
                        ip < m < i ==> node_id_of(#[trigger] doc[m].attrs) != Some(strings[v]),
                    None => forall|m: int|
                        0 <= m < i ==> node_id_of(#[trigger] doc[m].attrs) != Some(strings[v]),
                },
            forall|m: int|
                0 <= m < i ==> (node_id_of(#[trigger] doc[m].attrs) matches Some(x)
                    ==> strings.contains(x)),
        decreases nodes@.len() - i,
    {
        let ghost iattrs = doc[i as int].attrs;
        let mut found: Option<usize> = None;
        match id_sym_opt {
            Some(ids) => {
                let n_attrs = nodes[i].attributes.len();
                let mut j: usize = n_attrs;
                proof {
                    assert(iattrs.len() == n_attrs);
                }
                while j > 0
                    invariant
                        j <= n_attrs,
                        found is None,
                        forall|m: int| j <= m < n_attrs ==> (#[trigger] iattrs[m]).name != id_name(),
                    decreases j,
                {
                    proof {
                        assert(iattrs[j - 1].name == strings[nodes@[i as int].attributes@[j
                            - 1].name as int]);
                    }
                    if nodes[i].attributes[j - 1].name == ids {
                        found = Some(nodes[i].attributes[j - 1].value);
                        proof {
                            lemma_node_id_at(iattrs, j - 1);
                        }
                        break ;
                    }
                    proof {
                        if iattrs[j - 1].name == id_name() {
                            assert(strings[nodes@[i as int].attributes@[j - 1].name as int]
                                == strings[ids as int]);
                            assert(false);
                        }
                    }
                    j -= 1;
                }
                proof {
                    if found is None {
                        lemma_node_id_none(iattrs);
                    }
                }
            },
            None => {
                proof {
                    assert forall|m: int| 0 <= m < iattrs.len() implies (#[trigger] iattrs[m]).name
                        != id_name() by {
                        assert(iattrs[m].name == strings[nodes@[i as int].attributes@[m].name
                            as int]);
                        assert(strings.contains(
                            strings[nodes@[i as int].attributes@[m].name as int],
                        ));
                    }
                    lemma_node_id_none(iattrs);
                }
            },
        }
        match found {
            Some(v) => {
                let ghost r_before = r@;
                r[v] = Some(i);
                proof {
                    assert(node_id_of(doc[i as int].attrs) == Some(strings[v as int]));
                    assert forall|v2: int| 0 <= v2 < n_syms implies match #[trigger] r@[v2] {
                        Some(ip) => (ip as int) < i + 1 && node_id_of(doc[ip as int].attrs)
                            == Some(strings[v2]) && forall|m: int|
                            ip < m < i + 1 ==> node_id_of(#[trigger] doc[m].attrs) != Some(
                                strings[v2],
                            ),
                        None => forall|m: int|
                            0 <= m < i + 1 ==> node_id_of(#[trigger] doc[m].attrs) != Some(
                                strings[v2],
                            ),
                    } by {
                        if v2 != v as int {
                            assert(r@[v2] == r_before[v2]);
                            assert(node_id_of(doc[i as int].attrs) != Some(strings[v2]));
                        }
                    }
                }
            },
            None => {
                proof {
                    assert(node_id_of(doc[i as int].attrs) is None);
                }
            },
        }
        i += 1;
    }
    r
}

/// The class side index: for each symbol, the nodes whose class set
/// holds it, in ascending order.
#[verifier::loop_isolation(false)]
fn index_classes(it: &Interner, nodes: &Vec<IndexedNode>, n_syms: usize) -> (r: Vec<Vec<usize>>)
    requires
        interner_distinct(it),
        n_syms == interner_strings(it).len(),
        arena_syms_ok(interner_strings(it), nodes@),
    ensures
        r@.len() == n_syms,
        forall|c: int, j: int|
            0 <= c < n_syms && 0 <= j < r@[c]@.len() ==> (#[trigger] r@[c]@[j] as int)
                < nodes@.len(),
        forall|c: int, i: int|
            0 <= c < n_syms && 0 <= i < nodes@.len() ==> (#[trigger] holds_index(r@[c]@, i)
                <==> doc_view(interner_strings(it), nodes@)[i].classes.contains(
                interner_strings(it)[c],
            )),
{
    let ghost strings = interner_strings(it);
    let ghost doc = doc_view(strings, nodes@);
    let mut r: Vec<Vec<usize>> = Vec::new();
    let mut t: usize = 0;
    while t < n_syms
        invariant
            t <= n_syms,
            r@.len() == t,
            forall|u: int| 0 <= u < t ==> (#[trigger] r@[u]@).len() == 0,
        decreases n_syms - t,
    {
        r.push(Vec::new());
        t += 1;
    }
    let mut i: usize = 0;
    while i < nodes.len()
        invariant
            i <= nodes@.len(),
            r@.len() == n_syms,
            forall|c: int, j: int|
                0 <= c < n_syms && 0 <= j < r@[c]@.len() ==> (#[trigger] r@[c]@[j] as int) < i,
            forall|c: int, i2: int|
                0 <= c < n_syms && 0 <= i2 < i ==> (#[trigger] holds_index(r@[c]@, i2)
                    <==> doc[i2].classes.contains(strings[c])),
        decreases nodes@.len() - i,
    {
        let ghost csyms = nodes@[i as int].classes@;
        let n_cl = nodes[i].classes.len();
        let mut k: usize = 0;
        while k < n_cl
            invariant
                k <= n_cl,
                n_cl == csyms.len(),
                csyms == nodes@[i as int].classes@,
                i < nodes@.len(),
                r@.len() == n_syms,
                arena_syms_ok(strings, nodes@),
                forall|c: int, j: int|
                    0 <= c < n_syms && 0 <= j < r@[c]@.len() ==> (#[trigger] r@[c]@[j] as int) <= i,
                forall|c: int, i2: int|
                    0 <= c < n_syms && 0 <= i2 < i ==> (#[trigger] holds_index(r@[c]@, i2)
                        <==> doc[i2].classes.contains(strings[c])),
                forall|c: int|
                    0 <= c < n_syms ==> (#[trigger] holds_index(r@[c]@, i as int) <==> exists|m: int|
                        0 <= m < k && csyms[m] == c),
            decreases n_cl - k,
        {
            let c = nodes[i].classes[k];
            let mut dup = false;
            let mut m: usize = 0;
            while m < k
                invariant
                    m <= k,
                    k < n_cl,
                    n_cl == csyms.len(),
                    csyms == nodes@[i as int].classes@,
                    i < nodes@.len(),
                    c == csyms[k as int],
                    dup == exists|m2: int| 0 <= m2 < m && csyms[m2] == c,
                decreases k - m,
            {
                if nodes[i].classes[m] == c {
                    dup = true;
                    proof {
                        assert(csyms[m as int] == c);
                    }
                }
                m += 1;
            }
            if !dup {
                let ghost r_before = r@;
                let bucket = &mut r[c];
                bucket.push(i);
                proof {
                    assert(r@[c as int]@ =~= r_before[c as int]@.push(i));
                    assert forall|c2: int|
                        0 <= c2 < n_syms implies (#[trigger] holds_index(r@[c2]@, i as int)
                        <==> exists|m2: int| 0 <= m2 < k + 1 && csyms[m2] == c2) by {
                        if c2 == c as int {
                            assert(r@[c2]@[r@[c2]@.len() - 1] == i);
                            assert(csyms[k as int] == c2);
                        } else {
                            assert(r@[c2]@ == r_before[c2]@);
                        }
                    }
                    assert forall|c2: int, i2: int|
                        0 <= c2 < n_syms && 0 <= i2 < i implies (#[trigger] holds_index(
                        r@[c2]@,
                        i2,
                    ) <==> doc[i2].classes.contains(strings[c2])) by {
                        if c2 == c as int {
                            if holds_index(r@[c2]@, i2) {
                                let j = choose|j: int|
                                    0 <= j < r@[c2]@.len() && r@[c2]@[j] == i2;
                                assert(j < r@[c2]@.len() - 1);
                                assert(r_before[c2]@[j] == i2);
                            }
                            if holds_index(r_before[c2]@, i2) {
                                let j = choose|j: int|
                                    0 <= j < r_before[c2]@.len() && r_before[c2]@[j] == i2;
                                assert(r@[c2]@[j] == i2);
                            }
                        } else {
                            assert(r@[c2]@ == r_before[c2]@);
                        }
                    }
                }
            } else {
                proof {
                    let m2 = choose|m2: int| 0 <= m2 < k && csyms[m2] == c;
                    assert forall|c2: int|
                        0 <= c2 < n_syms implies (#[trigger] holds_index(r@[c2]@, i as int)
                        <==> exists|m3: int| 0 <= m3 < k + 1 && csyms[m3] == c2) by {
                        if holds_index(r@[c2]@, i as int) {
                            let m3 = choose|m3: int| 0 <= m3 < k && csyms[m3] == c2;
                            assert(0 <= m3 < k + 1 && csyms[m3] == c2);
                        } else {
                            if exists|m3: int| 0 <= m3 < k + 1 && csyms[m3] == c2 {
                                let m3 = choose|m3: int| 0 <= m3 < k + 1 && csyms[m3] == c2;
                                if m3 == k as int {
                                    assert(csyms[m2] == c2);
                                }
                            }
                        }
                    }
                }
            }
            k += 1;
        }
        proof {
            assert forall|c: int| 0 <= c < n_syms implies (#[trigger] holds_index(r@[c]@, i as int)
                <==> doc[i as int].classes.contains(strings[c])) by {
                assert(doc[i as int].classes =~= csyms.map_values(
                    |cc: usize| crate::dom::sym_str(strings, cc),
                ));
                if holds_index(r@[c]@, i as int) {
                    let m = choose|m: int| 0 <= m < csyms.len() && csyms[m] == c;
                    assert(doc[i as int].classes[m] == strings[c]);
                }
                if doc[i as int].classes.contains(strings[c]) {
                    let m = choose|m: int|
                        0 <= m < doc[i as int].classes.len() && doc[i as int].classes[m]
                            == strings[c];
                    assert(strings[csyms[m] as int] == strings[c]);
                    assert(csyms[m] == c);
                }
            }
            assert forall|c: int, i2: int|
                0 <= c < n_syms && 0 <= i2 < i + 1 implies (#[trigger] holds_index(r@[c]@, i2)
                <==> doc[i2].classes.contains(strings[c])) by {}
        }
        i += 1;
    }
    r
}

/// Whether the root's direct children include a doctype node.
fn scan_doctype(children: &Vec<RawNode>) -> (r: bool)
    ensures
        r == exists|k: int| 0 <= k < children@.len() && children@[k] is Doctype,
{
    let mut k: usize = 0;
    while k < children.len()
        invariant
            k <= children@.len(),
            forall|m: int| 0 <= m < k ==> !(children@[m] is Doctype),
        decreases children@.len() - k,
    {
        match &children[k] {
            RawNode::Doctype => {
                return true;
            },
            _ => {},
        }
        k += 1;
    }
    false
}

/// The indexed document: arena, side indices, symbol table, selector
/// cache and source map, owned together and built once.
pub struct DOMIndex {
    arena: NodeArena,
    elements: Vec<Vec<usize>>,
    ids: Vec<Option<usize>>,
    classes: Vec<Vec<usize>>,
    interner: Interner,
    selector_cache: SelectorCache,
    source_map: SourceMap,
    source: Vec<char>,
    doctype: bool,
    n_syms: usize,
}

impl DOMIndex {
    /// The interned strings.
    pub closed spec fn strings(&self) -> Seq<Seq<char>> {
        interner_strings(&self.interner)
    }

    /// The resolved view of the arena: what all contracts of this type
    /// speak about.
    pub closed spec fn doc(&self) -> Seq<NodeView> {
        doc_view(self.strings(), self.arena.view_nodes())
    }

    /// The document text the index was built from.
    pub closed spec fn source_view(&self) -> Seq<char> {
        self.source@
    }

    /// Whether the document's root has a doctype-typed child.
    pub closed spec fn doctype_spec(&self) -> bool {
        self.doctype
    }

    /// Internal consistency: symbols in range and distinct, arena links
    /// backward/bounded, and all three side indices exactly describing
    /// the document.
    pub closed spec fn wf(&self) -> bool {
        &&& interner_distinct(&self.interner)
        &&& self.n_syms == self.strings().len()
        &&& arena_syms_ok(self.strings(), self.arena.view_nodes())
        &&& self.elements@.len() == self.n_syms
        &&& self.ids@.len() == self.n_syms
        &&& self.classes@.len() == self.n_syms
        &&& parents_ok(self.doc())
        &&& children_ok(self.doc())
        &&& self.doc().len() >= 1
        &&& forall|t: int, j: int|
            0 <= t < self.n_syms && 0 <= j < self.elements@[t]@.len() ==> (
            #[trigger] self.elements@[t]@[j] as int) < self.doc().len()
        &&& forall|t: int, i: int|
            0 <= t < self.n_syms && 0 <= i < self.doc().len() ==> (#[trigger] holds_index(
                self.elements@[t]@,
                i,
            ) <==> self.doc()[i].tag == self.strings()[t] && self.strings()[t].len() > 0)
        &&& forall|v: int|
            0 <= v < self.n_syms ==> match #[trigger] self.ids@[v] {
                Some(i) => (i as int) < self.doc().len() && crate::sem::id_matches(
                    self.doc(),
                    i as int,
                    self.strings()[v],
                ),
                None => forall|m: int|
                    0 <= m < self.doc().len() ==> node_id_of(#[trigger] self.doc()[m].attrs)
                        != Some(self.strings()[v]),
            }
        &&& forall|m: int|
            0 <= m < self.doc().len() ==> (node_id_of(#[trigger] self.doc()[m].attrs)
                matches Some(x) ==> self.strings().contains(x))
        &&& forall|c: int, j: int|
            0 <= c < self.n_syms && 0 <= j < self.classes@[c]@.len() ==> (
            #[trigger] self.classes@[c]@[j] as int) < self.doc().len()
        &&& forall|c: int, i: int|
            0 <= c < self.n_syms && 0 <= i < self.doc().len() ==> (#[trigger] holds_index(
                self.classes@[c]@,
                i,
            ) <==> self.doc()[i].classes.contains(self.strings()[c]))
        &&& self.source_map.wf()
        &&& self.source_map.wf_for(self.source@)
        &&& self.selector_cache.wf()
    }

    /// Builds the index for one parsed document: one pre-order walk
    /// populating the arena and symbol table, then the three side
    /// indices and the source map.  The resulting document view is
    /// exactly [`doc_spec`] of the parse tree and source text.
    pub fn new(root: &RawNode, source: &str) -> (r: DOMIndex)
        ensures
            r.wf(),
            r.doc() == doc_spec(*root, source@),
            r.doctype_spec() == has_doctype_spec(*root),
            r.source_view() == source@,
    {
        let src = chars_of(source);
        let smap = SourceMap::new(source);
        let mut it = Interner::new();
        let mut nodes: Vec<IndexedNode> = Vec::new();
        let mut doctype = false;
        match root {
            RawNode::Document { children } => {
                let ghost strings0 = interner_strings(&it);
                let empty_sym = it.get_or_intern("");
                proof {
                    reveal_strlit("");
                    lemma_intern_keeps_distinct(strings0, interner_strings(&it), ""@);
                    assert(""@ =~= Seq::<char>::empty());
                }
                let ghost strings1 = interner_strings(&it);
                let n = IndexedNode {
                    tag_name: empty_sym,
                    attributes: Vec::new(),
                    classes: Vec::new(),
                    parent: None,
                    children: Vec::new(),
                    source_info: SourceInfo { line: 0, column: 0, source: String::new() },
                    text_content: None,
                };
                proof {
                    assert(node_syms_ok(strings1, n));
                }
                nodes.push(n);
                let ghost arena_after_push = nodes@;
                let kids = build_children(&mut nodes, &mut it, &src, &smap, children, 0);
                let ghost strings_f = interner_strings(&it);
                let ghost arena_end = nodes@;
                nodes[0].children = kids;
                doctype = scan_doctype(children);
                proof {
                    let updated = nodes@[0];
                    assert(node_syms_ok(strings_f, updated));
                    assert forall|i: int| 0 <= i < nodes@.len() implies node_syms_ok(
                        strings_f,
                        #[trigger] nodes@[i],
                    ) by {
                        if i != 0 {
                            assert(nodes@[i] == arena_end[i]);
                        }
                    }
                    assert(node_view(strings_f, updated).children =~= child_index_list(
                        children@,
                        1,
                    ));
                    assert(node_view(strings_f, updated).attrs =~= Seq::<AttrView>::empty());
                    assert(node_view(strings_f, updated).classes =~= Seq::<Seq<char>>::empty());
                    assert(node_view(strings_f, updated) =~= document_view(children@));
                    crate::dom::lemma_children_views_len(children@, src@, 1, 0);
                    assert(arena_after_push.len() == 1);
                    assert(doc_view(strings_f, arena_end) == doc_view(
                        strings_f,
                        arena_after_push,
                    ) + children_views(children@, src@, 1, 0));
                    assert(doc_view(strings_f, arena_after_push).len() == 1);
                    assert(doc_spec(*root, source@) == seq![document_view(children@)]
                        + children_views(children@, src@, 1, 0));
                    assert forall|i: int|
                        0 <= i < nodes@.len() implies #[trigger] doc_view(strings_f, nodes@)[i]
                        == doc_spec(*root, source@)[i] by {
                        assert(doc_view(strings_f, nodes@)[i] == node_view(strings_f, nodes@[i]));
                        if i == 0 {
                            assert(doc_spec(*root, source@)[0] == document_view(children@));
                        } else {
                            assert(nodes@[i] == arena_end[i]);
                            assert(doc_view(strings_f, arena_end)[i] == node_view(
                                strings_f,
                                arena_end[i],
                            ));
                            assert(doc_view(strings_f, arena_end)[i] == children_views(
                                children@,
                                src@,
                                1,
                                0,
                            )[i - 1]);
                            assert(doc_spec(*root, source@)[i] == children_views(
                                children@,
                                src@,
                                1,
                                0,
                            )[i - 1]);
                        }
                    }
                    assert(doc_view(strings_f, nodes@) =~= doc_spec(*root, source@));
                }
            },
            RawNode::Element { .. } => {
                build_subtree(&mut nodes, &mut it, &src, &smap, root, None);
                match root {
                    RawNode::Element { children, .. } => {
                        doctype = scan_doctype(children);
                    },
                    _ => {},
                }
                proof {
                    assert(doc_view(interner_strings(&it), nodes@) =~= doc_spec(*root, source@));
                }
            },
            RawNode::Text { text } => {
                let tc = chars_of(text.as_str());
                let trimmed = trim_chars(&tc);
                if trimmed.len() > 0 {
                    proof {
                        assert(text_materialized(text@));
                    }
                    build_subtree(&mut nodes, &mut it, &src, &smap, root, None);
                    proof {
                        assert(doc_view(interner_strings(&it), nodes@) =~= doc_spec(
                            *root,
                            source@,
                        ));
                    }
                } else {
                    proof {
                        assert(!text_materialized(text@));
                    }
                    push_bare_root(&mut nodes, &mut it);
                    proof {
                        assert(doc_view(interner_strings(&it), nodes@) =~= doc_spec(
                            *root,
                            source@,
                        ));
                    }
                }
            },
            _ => {
                push_bare_root(&mut nodes, &mut it);
                proof {
                    assert(doc_view(interner_strings(&it), nodes@) =~= doc_spec(*root, source@));
                }
            },
        }
        let n_syms = it.len();
        let elements = index_elements(&it, &nodes, n_syms);
        let ids = index_ids(&it, &nodes, n_syms);
        let classes = index_classes(&it, &nodes, n_syms);
        let r = DOMIndex {
            arena: NodeArena { nodes },
            elements,
            ids,
            classes,
            interner: it,
            selector_cache: SelectorCache::new(),
            source_map: smap,
            source: src,
            doctype,
            n_syms,
        };
        proof {
            lemma_doc_spec_struct(*root, source@);
        }
        r
    }

    /// The node at `index`, or `None` when `index` is out of range;
    /// never panics.
    pub fn get_node(&self, index: usize) -> (r: Option<&IndexedNode>)
        ensures
            match r {
                Some(n) => (index as int) < self.doc().len() && self.doc()[index as int]
                    == node_view(self.strings(), *n),
                None => (index as int) >= self.doc().len(),
            },
    {
        self.arena.get(index)
    }

    /// All nodes, for full-document scans.
    pub fn get_nodes(&self) -> (r: &Vec<IndexedNode>)
        ensures
            r@.len() == self.doc().len(),
            forall|i: int|
                0 <= i < r@.len() ==> self.doc()[i] == node_view(self.strings(), #[trigger] r@[i]),
    {
        &self.arena.nodes
    }

    /// The original string of a symbol, or `None` for a handle this
    /// index never issued; never panics.
    pub fn resolve_symbol(&self, symbol: usize) -> (r: Option<String>)
        ensures
            r is Some <==> (symbol as int) < self.strings().len(),
            match r {
                Some(st) => st@ == self.strings()[symbol as int],
                None => true,
            },
    {
        self.interner.resolve(symbol)
    }

    /// The source map built from the document text.
    pub fn get_source_map(&self) -> (r: &SourceMap)
        requires
            self.wf(),
        ensures
            r.wf(),
            r.wf_for(self.source_view()),
    {
        &self.source_map
    }

    /// Whether the document's root has a doctype-typed child.
    pub fn has_doctype(&self) -> (r: bool)
        ensures
            r == self.doctype_spec(),
    {
        self.doctype
    }
}

/// Pushes the bare root slot used when the root materializes nothing.
fn push_bare_root(nodes: &mut Vec<IndexedNode>, it: &mut Interner)
    requires
        old(nodes)@.len() == 0,
        interner_distinct(old(it)),
    ensures
        interner_distinct(final(it)),
        strings_extend(interner_strings(old(it)), interner_strings(final(it))),
        arena_syms_ok(interner_strings(final(it)), final(nodes)@),
        doc_view(interner_strings(final(it)), final(nodes)@) == seq![
            document_view(Seq::<RawNode>::empty()),
        ],
{
    let ghost strings0 = interner_strings(it);
    let empty_sym = it.get_or_intern("");
    proof {
        reveal_strlit("");
        lemma_intern_keeps_distinct(strings0, interner_strings(it), ""@);
        assert(""@ =~= Seq::<char>::empty());
    }
    let n = IndexedNode {
        tag_name: empty_sym,
        attributes: Vec::new(),
        classes: Vec::new(),
        parent: None,
        children: Vec::new(),
        source_info: SourceInfo { line: 0, column: 0, source: String::new() },
        text_content: None,
    };
    proof {
        let strings1 = interner_strings(it);
        assert(node_view(strings1, n).attrs =~= Seq::<AttrView>::empty());
        assert(node_view(strings1, n).classes =~= Seq::<Seq<char>>::empty());
        assert(node_view(strings1, n).children =~= child_index_list(Seq::<RawNode>::empty(), 1));
        assert(node_view(strings1, n) =~= document_view(Seq::<RawNode>::empty()));
    }
    nodes.push(n);
    proof {
        assert(doc_view(interner_strings(it), nodes@) =~= seq![
            document_view(Seq::<RawNode>::empty()),
        ]);
    }
}

proof fn lemma_sym_eq(strings: Seq<Seq<char>>, a: int, b: int)
    requires
        crate::interner::strings_distinct(strings),
        0 <= a < strings.len(),
        0 <= b < strings.len(),
    ensures
        (strings[a] == strings[b]) == (a == b),
{
    if a != b && strings[a] == strings[b] {
        if a < b {
            assert(false);
        } else {
            assert(false);
        }
    }
}

/// `x` occurs among the first `n` entries of `b`.
spec fn in_first(b: Seq<usize>, n: int, x: int) -> bool {
    exists|j: int| 0 <= j < n && j < b.len() && b[j] == x
}

fn copy_bucket(v: &Vec<usize>) -> (r: Vec<usize>)
    ensures
        r@ == v@,
{
    let mut r: Vec<usize> = Vec::new();
    let mut i: usize = 0;
    while i < v.len()
        invariant
            i <= v@.len(),
            r@ == v@.subrange(0, i as int),
        decreases v@.len() - i,
    {
        r.push(v[i]);
        proof {
            assert(r@ =~= v@.subrange(0, i + 1 as int));
        }
        i += 1;
    }
    proof {
        assert(r@ =~= v@);
    }
    r
}

impl DOMIndex {
    /// The symbol of an already-interned string, if any.
    fn sym_for(&self, name: &Vec<char>) -> (r: Option<usize>)
        ensures
            r is Some <==> self.strings().contains(name@),
            match r {
                Some(t) => (t as int) < self.strings().len() && self.strings()[t as int] == name@,
                None => true,
            },
    {
        let s = chars_to_string(name);
        self.interner.get(s.as_str())
    }

    /// Whether node `i`'s class set holds the class named `name`.
    #[verifier::loop_isolation(false)]
    pub(crate) fn node_has_class(&self, i: usize, name: &Vec<char>) -> (b: bool)
        requires
            self.wf(),
            (i as int) < self.doc().len(),
        ensures
            b == self.doc()[i as int].classes.contains(name@),
    {
        let ghost doc = self.doc();
        let ghost strings = self.strings();
        match self.sym_for(name) {
            Some(c) => {
                let cls = &self.arena.nodes[i].classes;
                let ghost csyms = cls@;
                proof {
                    assert(doc[i as int].classes =~= csyms.map_values(
                        |cc: usize| crate::dom::sym_str(strings, cc),
                    ));
                }
                let mut m: usize = 0;
                while m < cls.len()
                    invariant
                        m <= csyms.len(),
                        cls@ == csyms,
                        forall|m2: int| 0 <= m2 < m ==> csyms[m2] != c,
                    decreases csyms.len() - m,
                {
                    if cls[m] == c {
                        proof {
                            assert(doc[i as int].classes[m as int] == strings[c as int]);
                        }
                        return true;
                    }
                    m += 1;
                }
                proof {
                    if doc[i as int].classes.contains(name@) {
                        let m2 = choose|m2: int|
                            0 <= m2 < doc[i as int].classes.len() && doc[i as int].classes[m2]
                                == name@;
                        assert(strings[csyms[m2] as int] == strings[c as int]);
                        lemma_sym_eq(strings, csyms[m2] as int, c as int);
                        assert(false);
                    }
                }
                false
            },
            None => {
                proof {
                    if doc[i as int].classes.contains(name@) {
                        let m2 = choose|m2: int|
                            0 <= m2 < doc[i as int].classes.len() && doc[i as int].classes[m2]
                                == name@;
                        let csym = self.arena.view_nodes()[i as int].classes@[m2];
                        assert(doc[i as int].classes[m2] == strings[csym as int]);
                        assert(strings.contains(name@));
                    }
                }
                false
            },
        }
    }

    /// Whether some attribute of node `i` satisfies the predicate.
    #[verifier::loop_isolation(false)]
    fn attr_matches(&self, i: usize, sel: &AttributeSelector) -> (b: bool)
        requires
            self.wf(),
            (i as int) < self.doc().len(),
            sel@.wf(),
        ensures
            b == crate::sem::attr_sel_matches(sel@, self.doc()[i as int].attrs),
    {
        let ghost doc = self.doc();
        let ghost strings = self.strings();
        let ghost vattrs = doc[i as int].attrs;
        let name: &Vec<char> = match sel {
            AttributeSelector::Exists(n) => n,
            AttributeSelector::Equals(n, _) => n,
            AttributeSelector::StartsWith(n, _) => n,
            AttributeSelector::EndsWith(n, _) => n,
            AttributeSelector::Contains(n, _) => n,
            AttributeSelector::ListContains(n, _) => n,
            AttributeSelector::DashMatch(n, _) => n,
        };
        proof {
            assert(sel@.name() == name@);
        }
        let ns = match self.sym_for(name) {
            Some(t) => t,
            None => {
                proof {
                    if crate::sem::attr_sel_matches(sel@, vattrs) {
                        let k = choose|k: int|
                            0 <= k < vattrs.len() && (#[trigger] vattrs[k]).name == sel@.name()
                                && crate::sem::attr_op_matches(sel@, vattrs[k].value);
                        let nsym = self.arena.view_nodes()[i as int].attributes@[k].name;
                        assert(vattrs[k].name == strings[nsym as int]);
                        assert(strings.contains(name@));
                    }
                }
                return false;
            },
        };
        let attrs = &self.arena.nodes[i].attributes;
        let ghost easyms = attrs@;
        proof {
            assert(vattrs.len() == easyms.len());
        }
        let mut k: usize = 0;
        while k < attrs.len()
            invariant
                self.wf(),
                (i as int) < self.doc().len(),
                sel@.wf(),
                k <= easyms.len(),
                attrs@ == easyms,
                attrs == &self.arena.view_nodes()[i as int].attributes,
                doc == self.doc(),
                strings == self.strings(),
                vattrs == doc[i as int].attrs,
                vattrs.len() == easyms.len(),
                (ns as int) < strings.len(),
                strings[ns as int] == name@,
                name@ == sel@.name(),
                forall|k2: int|
                    0 <= k2 < k ==> !((#[trigger] vattrs[k2]).name == sel@.name()
                        && crate::sem::attr_op_matches(sel@, vattrs[k2].value)),
            decreases easyms.len() - k,
        {
            proof {
                assert(vattrs[k as int].name == strings[easyms[k as int].name as int]);
                assert(vattrs[k as int].value == strings[easyms[k as int].value as int]);
            }
            if attrs[k].name == ns {
                proof {
                    assert(vattrs[k as int].name == sel@.name());
                }
                let ok = match sel {
                    AttributeSelector::Exists(_) => true,
                    AttributeSelector::Equals(_, x) => {
                        match self.sym_for(x) {
                            Some(vs) => attrs[k].value == vs,
                            None => {
                                proof {
                                    assert(strings.contains(vattrs[k as int].value));
                                    if vattrs[k as int].value == x@ {
                                        assert(strings.contains(x@));
                                    }
                                }
                                false
                            },
                        }
                    },
                    AttributeSelector::StartsWith(_, x) => {
                        let rv = self.interner.resolve(attrs[k].value).unwrap();
                        let vc = chars_of(rv.as_str());
                        crate::text::prefix_of(x, &vc)
                    },
                    AttributeSelector::EndsWith(_, x) => {
                        let rv = self.interner.resolve(attrs[k].value).unwrap();
                        let vc = chars_of(rv.as_str());
                        crate::text::suffix_of(x, &vc)
                    },
                    AttributeSelector::Contains(_, x) => {
                        let rv = self.interner.resolve(attrs[k].value).unwrap();
                        let vc = chars_of(rv.as_str());
                        let found = find_sub(&vc, x);
                        proof {
                            crate::text::lemma_find_first_props(vc@, x@);
                        }
                        found.is_some()
                    },
                    AttributeSelector::ListContains(_, x) => {
                        let rv = self.interner.resolve(attrs[k].value).unwrap();
                        let vc = chars_of(rv.as_str());
                        crate::text::token_in(&vc, x)
                    },
                    AttributeSelector::DashMatch(_, x) => {
                        let rv = self.interner.resolve(attrs[k].value).unwrap();
                        let vc = chars_of(rv.as_str());
                        if crate::text::eq_chars(x, &vc) {
                            true
                        } else {
                            let mut d = crate::text::clone_chars(x);
                            d.push('-');
                            proof {
                                assert(d@ =~= x@.push('-'));
                            }
                            crate::text::prefix_of(&d, &vc)
                        }
                    },
                };
                proof {
                    assert(ok == crate::sem::attr_op_matches(sel@, vattrs[k as int].value));
                }
                if ok {
                    return true;
                }
            } else {
                proof {
                    lemma_sym_eq(strings, easyms[k as int].name as int, ns as int);
                    assert(vattrs[k as int].name != sel@.name());
                }
            }
            k += 1;
        }
        proof {
            if crate::sem::attr_sel_matches(sel@, vattrs) {
                let k2 = choose|k2: int|
                    0 <= k2 < vattrs.len() && (#[trigger] vattrs[k2]).name == sel@.name()
                        && crate::sem::attr_op_matches(sel@, vattrs[k2].value);
                assert(false);
            }
        }
        false
    }

    /// `(idx, count)`: the node's scan position among its siblings and
    /// the sibling count.
    #[verifier::loop_isolation(false)]
    fn sib_position(&self, i: usize) -> (r: (usize, usize))
        requires
            self.wf(),
            (i as int) < self.doc().len(),
        ensures
            r.0 as int == crate::sem::idx_in(
                crate::sem::siblings(self.doc(), i as int),
                i as int,
            ),
            r.1 as int == crate::sem::siblings(self.doc(), i as int).len(),
            r.0 <= r.1,
    {
        let ghost doc = self.doc();
        match self.arena.nodes[i].parent {
            Some(p) => {
                let ch = &self.arena.nodes[p].children;
                let ghost sib = crate::sem::siblings(doc, i as int);
                proof {
                    assert(doc[i as int].parent == Some(p as int));
                    assert(sib =~= ch@.map_values(|c: usize| c as int));
                }
                let mut m: usize = 0;
                while m < ch.len()
                    invariant
                        m <= ch@.len(),
                        ch@.len() == sib.len(),
                        forall|m2: int| 0 <= m2 < m ==> sib[m2] != i as int,
                        forall|m2: int| 0 <= m2 < sib.len() ==> sib[m2] == ch@[m2] as int,
                    decreases ch@.len() - m,
                {
                    if ch[m] == i {
                        proof {
                            crate::sem::lemma_idx_in_at(sib, i as int, m as int);
                        }
                        return (m, ch.len());
                    }
                    m += 1;
                }
                proof {
                    crate::sem::lemma_idx_in_absent(sib, i as int);
                }
                (ch.len(), ch.len())
            },
            None => {
                proof {
                    assert(doc[i as int].parent is None);
                    assert(crate::sem::siblings(doc, i as int) == seq![i as int]);
                    assert(crate::sem::idx_in(seq![i as int], i as int) == 0);
                }
                (0, 1)
            },
        }
    }

    /// Whether node `i` satisfies the element/id/class/attribute
    /// constraints of a simple part.
    #[verifier::loop_isolation(false)]
    fn matches_simple(&self, i: usize, sp: &SimplePart) -> (b: bool)
        requires
            self.wf(),
            (i as int) < self.doc().len(),
            sp@.wf(),
        ensures
            b == crate::sem::simple_part_matches(self.doc(), i as int, sp@),
    {
        let ghost doc = self.doc();
        let ghost strings = self.strings();
        match &sp.element {
            Some(e) => {
                match self.sym_for(e) {
                    Some(t) => {
                        if self.arena.nodes[i].tag_name != t {
                            proof {
                                lemma_sym_eq(
                                    strings,
                                    self.arena.view_nodes()[i as int].tag_name as int,
                                    t as int,
                                );
                            }
                            return false;
                        }
                    },
                    None => {
                        proof {
                            assert(doc[i as int].tag == strings[self.arena.view_nodes()[
                                i as int
                            ].tag_name as int]);
                            assert(strings.contains(doc[i as int].tag));
                        }
                        return false;
                    },
                }
            },
            None => {},
        }
        match &sp.id {
            Some(v) => {
                match self.sym_for(v) {
                    Some(s) => {
                        let hit = match self.ids[s] {
                            Some(x) => x == i,
                            None => false,
                        };
                        if !hit {
                            proof {
                                if crate::sem::id_matches(doc, i as int, v@) {
                                    match self.ids@[s as int] {
                                        Some(x) => {
                                            crate::sem::lemma_id_unique(
                                                doc,
                                                strings[s as int],
                                                x as int,
                                                i as int,
                                            );
                                            assert(false);
                                        },
                                        None => {
                                            assert(node_id_of(doc[i as int].attrs) != Some(
                                                strings[s as int],
                                            ));
                                            assert(false);
                                        },
                                    }
                                }
                            }
                            return false;
                        }
                    },
                    None => {
                        proof {
                            if crate::sem::id_matches(doc, i as int, v@) {
                                assert(node_id_of(doc[i as int].attrs) == Some(v@));
                                assert(strings.contains(v@));
                            }
                        }
                        return false;
                    },
                }
            },
            None => {},
        }
        let mut k: usize = 0;
        while k < sp.classes.len()
            invariant
                self.wf(),
                (i as int) < self.doc().len(),
                doc == self.doc(),
                k <= sp.classes@.len(),
                forall|k2: int|
                    0 <= k2 < k ==> doc[i as int].classes.contains(#[trigger] sp@.classes[k2]),
            decreases sp.classes@.len() - k,
        {
            if !self.node_has_class(i, &sp.classes[k]) {
                proof {
                    assert(sp@.classes[k as int] == sp.classes@[k as int]@);
                }
                return false;
            }
            k += 1;
        }
        let mut k2: usize = 0;
        while k2 < sp.attributes.len()
            invariant
                self.wf(),
                (i as int) < self.doc().len(),
                doc == self.doc(),
                sp@.wf(),
                k2 <= sp.attributes@.len(),
                forall|k3: int|
                    0 <= k3 < k2 ==> crate::sem::attr_sel_matches(
                        #[trigger] sp@.attributes[k3],
                        doc[i as int].attrs,
                    ),
            decreases sp.attributes@.len() - k2,
        {
            proof {
                assert(sp@.attributes[k2 as int] == sp.attributes@[k2 as int]@);
            }
            if !self.attr_matches(i, &sp.attributes[k2]) {
                return false;
            }
            k2 += 1;
        }
        true
    }

    /// Whether node `i` satisfies one pseudo-class constraint.
    #[verifier::loop_isolation(false)]
    fn matches_pseudo(&self, i: usize, ps: &PseudoClass) -> (b: bool)
        requires
            self.wf(),
            (i as int) < self.doc().len(),
            ps@.wf(),
        ensures
            b == crate::sem::pseudo_matches(self.doc(), i as int, ps@),
    {
        let ghost doc = self.doc();
        let ghost strings = self.strings();
        let ghost sib = crate::sem::siblings(doc, i as int);
        match ps {
            PseudoClass::FirstChild => {
                let (m, _c) = self.sib_position(i);
                m == 0
            },
            PseudoClass::LastChild => {
                let (m, c) = self.sib_position(i);
                m < c && c - m == 1
            },
            PseudoClass::NthChild(a, b_) => {
                let (m, _c) = self.sib_position(i);
                let pv: i128 = m as i128 + 1;
                let av: i128 = *a as i128;
                let bv: i128 = *b_ as i128;
                proof {
                    crate::sem::lemma_nth_equiv(*a as int, *b_ as int, m as int + 1);
                }
                if av == 0 {
                    pv == bv
                } else if av > 0 {
                    pv >= bv && (pv - bv) % av == 0
                } else {
                    pv <= bv && (bv - pv) % (-av) == 0
                }
            },
            PseudoClass::NthLastChild(a, b_) => {
                let (m, c) = self.sib_position(i);
                let pv: i128 = c as i128 - m as i128;
                let av: i128 = *a as i128;
                let bv: i128 = *b_ as i128;
                proof {
                    crate::sem::lemma_nth_equiv(*a as int, *b_ as int, c as int - m as int);
                    assert(sib.len() - crate::sem::position_of(doc, i as int) + 1 == c - m);
                }
                if av == 0 {
                    pv == bv
                } else if av > 0 {
                    pv >= bv && (pv - bv) % av == 0
                } else {
                    pv <= bv && (bv - pv) % (-av) == 0
                }
            },
            PseudoClass::FirstOfType => {
                match self.arena.nodes[i].parent {
                    Some(p) => {
                        let (m, _c) = self.sib_position(i);
                        let ch = &self.arena.nodes[p].children;
                        proof {
                            assert(doc[i as int].parent == Some(p as int));
                            assert(sib =~= ch@.map_values(|c: usize| c as int));
                        }
                        let mut j: usize = 0;
                        while j < m
                            invariant
                                self.wf(),
                                (i as int) < doc.len(),
                                doc == self.doc(),
                                strings == self.strings(),
                                j <= m,
                                (m as int) <= sib.len(),
                                sib == crate::sem::siblings(doc, i as int),
                                m as int == crate::sem::idx_in(sib, i as int),
                                ch@.len() == sib.len(),
                                forall|m2: int| 0 <= m2 < sib.len() ==> sib[m2] == ch@[m2] as int,
                                forall|m2: int|
                                    0 <= m2 < j ==> doc[#[trigger] sib[m2]].tag != doc[
                                        i as int
                                    ].tag,
                            decreases m - j,
                        {
                            proof {
                                assert(crate::dom::children_ok(doc));
                                assert(0 <= sib[j as int] < doc.len());
                                assert(doc[sib[j as int]].tag == strings[self.arena.view_nodes()[
                                    sib[j as int]
                                ].tag_name as int]);
                            }
                            if self.arena.nodes[ch[j]].tag_name == self.arena.nodes[i].tag_name {
                                proof {
                                    assert(doc[sib[j as int]].tag == doc[i as int].tag);
                                }
                                return false;
                            }
                            proof {
                                lemma_sym_eq(
                                    strings,
                                    self.arena.view_nodes()[sib[j as int]].tag_name as int,
                                    self.arena.view_nodes()[i as int].tag_name as int,
                                );
                            }
                            j += 1;
                        }
                        true
                    },
                    None => {
                        proof {
                            assert(doc[i as int].parent is None);
                            assert(sib == seq![i as int]);
                            assert(crate::sem::idx_in(sib, i as int) == 0);
                        }
                        true
                    },
                }
            },
            PseudoClass::LastOfType => {
                match self.arena.nodes[i].parent {
                    Some(p) => {
                        let (m, c) = self.sib_position(i);
                        let ch = &self.arena.nodes[p].children;
                        proof {
                            assert(doc[i as int].parent == Some(p as int));
                            assert(sib =~= ch@.map_values(|cc: usize| cc as int));
                        }
                        let mut j: usize = if m >= c {
                            c
                        } else {
                            m + 1
                        };
                        while j < c
                            invariant
                                self.wf(),
                                (i as int) < doc.len(),
                                doc == self.doc(),
                                strings == self.strings(),
                                m + 1 <= j <= c || (m >= c && j >= c),
                                c as int == sib.len(),
                                sib == crate::sem::siblings(doc, i as int),
                                m as int == crate::sem::idx_in(sib, i as int),
                                ch@.len() == sib.len(),
                                forall|m2: int| 0 <= m2 < sib.len() ==> sib[m2] == ch@[m2] as int,
                                forall|m2: int|
                                    m < m2 < j ==> doc[#[trigger] sib[m2]].tag != doc[i as int].tag,
                            decreases c - j,
                        {
                            proof {
                                assert(crate::dom::children_ok(doc));
                                assert(0 <= sib[j as int] < doc.len());
                            }
                            if self.arena.nodes[ch[j]].tag_name == self.arena.nodes[i].tag_name {
                                proof {
                                    assert(doc[sib[j as int]].tag == doc[i as int].tag);
                                }
                                return false;
                            }
                            proof {
                                lemma_sym_eq(
                                    strings,
                                    self.arena.view_nodes()[sib[j as int]].tag_name as int,
                                    self.arena.view_nodes()[i as int].tag_name as int,
                                );
                            }
                            j += 1;
                        }
                        true
                    },
                    None => {
                        proof {
                            assert(doc[i as int].parent is None);
                            assert(sib == seq![i as int]);
                            assert(crate::sem::idx_in(sib, i as int) == 0);
                        }
                        true
                    },
                }
            },
            PseudoClass::OnlyChild => {
                let (_m, c) = self.sib_position(i);
                c == 1
            },
            PseudoClass::OnlyOfType => {
                match self.arena.nodes[i].parent {
                    Some(p) => {
                        let (m, c) = self.sib_position(i);
                        let ch = &self.arena.nodes[p].children;
                        proof {
                            assert(doc[i as int].parent == Some(p as int));
                            assert(sib =~= ch@.map_values(|cc: usize| cc as int));
                        }
                        let mut j: usize = 0;
                        while j < c
                            invariant
                                self.wf(),
                                (i as int) < doc.len(),
                                doc == self.doc(),
                                strings == self.strings(),
                                j <= c,
                                c as int == sib.len(),
                                sib == crate::sem::siblings(doc, i as int),
                                m as int == crate::sem::idx_in(sib, i as int),
                                ch@.len() == sib.len(),
                                forall|m2: int| 0 <= m2 < sib.len() ==> sib[m2] == ch@[m2] as int,
                                forall|m2: int|
                                    0 <= m2 < j && m2 != m as int ==> doc[#[trigger] sib[m2]].tag
                                        != doc[i as int].tag,
                            decreases c - j,
                        {
                            if j != m {
                                proof {
                                    assert(crate::dom::children_ok(doc));
                                    assert(0 <= sib[j as int] < doc.len());
                                }
                                if self.arena.nodes[ch[j]].tag_name
                                    == self.arena.nodes[i].tag_name {
                                    proof {
                                        assert(doc[sib[j as int]].tag == doc[i as int].tag);
                                    }
                                    return false;
                                }
                                proof {
                                    lemma_sym_eq(
                                        strings,
                                        self.arena.view_nodes()[sib[j as int]].tag_name as int,
                                        self.arena.view_nodes()[i as int].tag_name as int,
                                    );
                                }
                            }
                            j += 1;
                        }
                        true
                    },
                    None => {
                        proof {
                            assert(doc[i as int].parent is None);
                            assert(sib == seq![i as int]);
                            assert(crate::sem::idx_in(sib, i as int) == 0);
                        }
                        true
                    },
                }
            },
            PseudoClass::Empty => {
                let r = self.arena.nodes[i].children.len() == 0;
                proof {
                    assert(doc[i as int].children.len() == self.arena.view_nodes()[
                        i as int
                    ].children@.len());
                }
                r
            },
            PseudoClass::Not(sp) => !self.matches_simple(i, sp),
        }
    }

    /// Whether node `i` satisfies every constraint of one compound
    /// part.
    #[verifier::loop_isolation(false)]
    fn matches_part(&self, i: usize, pt: &SelectorPart) -> (b: bool)
        requires
            self.wf(),
            (i as int) < self.doc().len(),
            pt@.wf(),
        ensures
            b == crate::sem::part_matches(self.doc(), i as int, pt@),
    {
        let ghost doc = self.doc();
        let simple = SimplePart {
            element: clone_opt(&pt.element),
            id: clone_opt(&pt.id),
            classes: Vec::new(),
            attributes: Vec::new(),
        };
        match &pt.element {
            Some(e) => {
                match self.sym_for(e) {
                    Some(t) => {
                        if self.arena.nodes[i].tag_name != t {
                            proof {
                                lemma_sym_eq(
                                    self.strings(),
                                    self.arena.view_nodes()[i as int].tag_name as int,
                                    t as int,
                                );
                            }
                            return false;
                        }
                    },
                    None => {
                        proof {
                            assert(doc[i as int].tag == self.strings()[self.arena.view_nodes()[
                                i as int
                            ].tag_name as int]);
                            assert(self.strings().contains(doc[i as int].tag));
                        }
                        return false;
                    },
                }
            },
            None => {},
        }
        match &pt.id {
            Some(v) => {
                match self.sym_for(v) {
                    Some(s) => {
                        let hit = match self.ids[s] {
                            Some(x) => x == i,
                            None => false,
                        };
                        if !hit {
                            proof {
                                if crate::sem::id_matches(doc, i as int, v@) {
                                    match self.ids@[s as int] {
                                        Some(x) => {
                                            crate::sem::lemma_id_unique(
                                                doc,
                                                self.strings()[s as int],
                                                x as int,
                                                i as int,
                                            );
                                            assert(false);
                                        },
                                        None => {
                                            assert(node_id_of(doc[i as int].attrs) != Some(
                                                self.strings()[s as int],
                                            ));
                                            assert(false);
                                        },
                                    }
                                }
                            }
                            return false;
                        }
                    },
                    None => {
                        proof {
                            if crate::sem::id_matches(doc, i as int, v@) {
                                assert(node_id_of(doc[i as int].attrs) == Some(v@));
                                assert(self.strings().contains(v@));
                            }
                        }
                        return false;
                    },
                }
            },
            None => {},
        }
        let mut k: usize = 0;
        while k < pt.classes.len()
            invariant
                self.wf(),
                (i as int) < self.doc().len(),
                doc == self.doc(),
                k <= pt.classes@.len(),
                forall|k2: int|
                    0 <= k2 < k ==> doc[i as int].classes.contains(#[trigger] pt@.classes[k2]),
            decreases pt.classes@.len() - k,
        {
            if !self.node_has_class(i, &pt.classes[k]) {
                proof {
                    assert(pt@.classes[k as int] == pt.classes@[k as int]@);
                }
                return false;
            }
            k += 1;
        }
        let mut k2: usize = 0;
        while k2 < pt.attributes.len()
            invariant
                self.wf(),
                (i as int) < self.doc().len(),
                doc == self.doc(),
                pt@.wf(),
                k2 <= pt.attributes@.len(),
                forall|k3: int|
                    0 <= k3 < k2 ==> crate::sem::attr_sel_matches(
                        #[trigger] pt@.attributes[k3],
                        doc[i as int].attrs,
                    ),
            decreases pt.attributes@.len() - k2,
        {
            proof {
                assert(pt@.attributes[k2 as int] == pt.attributes@[k2 as int]@);
            }
            if !self.attr_matches(i, &pt.attributes[k2]) {
                return false;
            }
            k2 += 1;
        }
        let mut k3: usize = 0;
        while k3 < pt.pseudo_classes.len()
            invariant
                self.wf(),
                (i as int) < self.doc().len(),
                doc == self.doc(),
                pt@.wf(),
                k3 <= pt.pseudo_classes@.len(),
                forall|k4: int|
                    0 <= k4 < k3 ==> crate::sem::pseudo_matches(
                        doc,
                        i as int,
                        #[trigger] pt@.pseudo_classes[k4],
                    ),
            decreases pt.pseudo_classes@.len() - k3,
        {
            proof {
                assert(pt@.pseudo_classes[k3 as int] == pt.pseudo_classes@[k3 as int]@);
            }
            if !self.matches_pseudo(i, &pt.pseudo_classes[k3]) {
                return false;
            }
            k3 += 1;
        }
        true
    }
}

fn clone_opt(o: &Option<Vec<char>>) -> (r: Option<Vec<char>>)
    ensures
        match (o, &r) {
            (Some(a), Some(b)) => a@ == b@,
            (None, None) => true,
            _ => false,
        },
{
    match o {
        Some(v) => Some(crate::text::clone_chars(v)),
        None => None,
    }
}

impl DOMIndex {
    /// Whether node `i` matches the sequence up to part `k`, walking
    /// combinators leftward.
    #[verifier::loop_isolation(false)]
    fn matches_upto(&self, i: usize, sv: &SelectorSequence, k: usize) -> (b: bool)
        requires
            self.wf(),
            (i as int) < self.doc().len(),
            sv@.wf(),
            (k as int) < sv@.parts.len(),
        ensures
            b == crate::sem::seq_matches_upto(self.doc(), i as int, sv@, k as int),
        decreases k,
    {
        let ghost doc = self.doc();
        proof {
            assert(sv@.parts[k as int] == sv.parts@[k as int]@);
        }
        if !self.matches_part(i, &sv.parts[k]) {
            return false;
        }
        if k == 0 {
            return true;
        }
        let comb = sv.combinators[k - 1];
        proof {
            assert(sv@.combinators[k - 1] == comb);
        }
        match comb {
            crate::selector::Combinator::Child => {
                match self.arena.nodes[i].parent {
                    Some(p) => {
                        proof {
                            assert(doc[i as int].parent == Some(p as int));
                            assert(crate::dom::parents_ok(doc));
                        }
                        self.matches_upto(p, sv, k - 1)
                    },
                    None => {
                        proof {
                            assert(doc[i as int].parent is None);
                        }
                        false
                    },
                }
            },
            crate::selector::Combinator::Descendant => {
                let mut cur = i;
                loop
                    invariant
                        cur <= i,
                        (cur as int) < doc.len(),
                        cur == i || (crate::sem::is_ancestor(doc, cur as int, i as int)
                            && !crate::sem::seq_matches_upto(doc, cur as int, sv@, k - 1)),
                        forall|a: int|
                            crate::sem::is_ancestor(doc, a, i as int) && !crate::sem::is_ancestor(
                                doc,
                                a,
                                cur as int,
                            ) && a != cur as int ==> !crate::sem::seq_matches_upto(
                                doc,
                                a,
                                sv@,
                                k - 1,
                            ),
                    decreases cur,
                {
                    match self.arena.nodes[cur].parent {
                        Some(p) => {
                            proof {
                                assert(doc[cur as int].parent == Some(p as int));
                                assert(crate::dom::parents_ok(doc));
                                assert(0 <= (p as int) < cur as int);
                                if cur == i {
                                    assert(crate::sem::is_ancestor(doc, p as int, i as int));
                                } else {
                                    crate::sem::lemma_ancestor_parent(
                                        doc,
                                        cur as int,
                                        i as int,
                                        p as int,
                                    );
                                }
                            }
                            if self.matches_upto(p, sv, k - 1) {
                                proof {
                                    assert(crate::sem::is_ancestor(doc, p as int, i as int)
                                        && crate::sem::seq_matches_upto(doc, p as int, sv@, k - 1));
                                }
                                return true;
                            }
                            proof {
                                let oldcur = cur as int;
                                assert forall|a: int|
                                    crate::sem::is_ancestor(doc, a, i as int)
                                        && !crate::sem::is_ancestor(doc, a, p as int) && a
                                        != p as int implies !crate::sem::seq_matches_upto(
                                    doc,
                                    a,
                                    sv@,
                                    k - 1,
                                ) by {
                                    if a == oldcur {
                                        if cur == i {
                                            crate::sem::lemma_ancestor_lt(doc, a, i as int);
                                            assert(false);
                                        }
                                    } else if crate::sem::is_ancestor(doc, a, oldcur) {
                                        assert(false);
                                    }
                                }
                            }
                            cur = p;
                        },
                        None => {
                            proof {
                                assert(doc[cur as int].parent is None);
                                assert forall|a: int|
                                    crate::sem::is_ancestor(doc, a, i as int) implies !crate::sem::seq_matches_upto(
                                    doc,
                                    a,
                                    sv@,
                                    k - 1,
                                ) by {
                                    if a == cur as int {
                                        if cur == i {
                                            crate::sem::lemma_ancestor_lt(doc, a, i as int);
                                            assert(false);
                                        }
                                    } else if crate::sem::is_ancestor(doc, a, cur as int) {
                                        assert(false);
                                    }
                                }
                            }
                            return false;
                        },
                    }
                }
            },
            crate::selector::Combinator::Adjacent => {
                match self.arena.nodes[i].parent {
                    Some(p) => {
                        let ghost sib = crate::sem::siblings(doc, i as int);
                        let (m, c) = self.sib_position(i);
                        proof {
                            assert(doc[i as int].parent == Some(p as int));
                        }
                        if m == 0 || m >= c {
                            proof {
                                assert(crate::sem::prev_sibling(doc, i as int) is None);
                            }
                            false
                        } else {
                            let ch = &self.arena.nodes[p].children;
                            let s = ch[m - 1];
                            proof {
                                assert(sib[m - 1] == ch@[m - 1] as int);
                                assert(crate::sem::prev_sibling(doc, i as int) == Some(
                                    s as int,
                                ));
                                assert(crate::dom::children_ok(doc));
                                assert(0 <= sib[m - 1] < doc.len());
                            }
                            self.matches_upto(s, sv, k - 1)
                        }
                    },
                    None => {
                        proof {
                            assert(doc[i as int].parent is None);
                            assert(crate::sem::siblings(doc, i as int) == seq![i as int]);
                            assert(crate::sem::idx_in(seq![i as int], i as int) == 0);
                            assert(crate::sem::prev_sibling(doc, i as int) is None);
                        }
                        false
                    },
                }
            },
            crate::selector::Combinator::GeneralSibling => {
                match self.arena.nodes[i].parent {
                    Some(p) => {
                        let ghost sib = crate::sem::siblings(doc, i as int);
                        let (m, _c) = self.sib_position(i);
                        let ch = &self.arena.nodes[p].children;
                        proof {
                            assert(doc[i as int].parent == Some(p as int));
                            assert(sib =~= ch@.map_values(|cc: usize| cc as int));
                        }
                        let mut m2: usize = 0;
                        let mut found = false;
                        while m2 < m && !found
                            invariant
                                m2 <= m,
                                (m as int) <= sib.len(),
                                found ==> exists|m3: int|
                                    0 <= m3 < crate::sem::idx_in(sib, i as int)
                                        && crate::sem::seq_matches_upto(
                                        doc,
                                        #[trigger] sib[m3],
                                        sv@,
                                        k - 1,
                                    ),
                                !found ==> forall|m3: int|
                                    0 <= m3 < m2 ==> !crate::sem::seq_matches_upto(
                                        doc,
                                        #[trigger] sib[m3],
                                        sv@,
                                        k - 1,
                                    ),
                            decreases m - m2,
                        {
                            proof {
                                assert(crate::dom::children_ok(doc));
                                assert(sib[m2 as int] == ch@[m2 as int] as int);
                                assert(0 <= sib[m2 as int] < doc.len());
                            }
                            if self.matches_upto(ch[m2], sv, k - 1) {
                                found = true;
                            }
                            m2 += 1;
                        }
                        proof {
                            if !found {
                                if exists|m3: int|
                                    0 <= m3 < crate::sem::idx_in(sib, i as int)
                                        && crate::sem::seq_matches_upto(
                                        doc,
                                        #[trigger] sib[m3],
                                        sv@,
                                        k - 1,
                                    ) {
                                    let m3 = choose|m3: int|
                                        0 <= m3 < crate::sem::idx_in(sib, i as int)
                                            && crate::sem::seq_matches_upto(
                                            doc,
                                            #[trigger] sib[m3],
                                            sv@,
                                            k - 1,
                                        );
                                    assert(false);
                                }
                            }
                        }
                        found
                    },
                    None => {
                        proof {
                            assert(doc[i as int].parent is None);
                            assert(crate::sem::siblings(doc, i as int) == seq![i as int]);
                            assert(crate::sem::idx_in(seq![i as int], i as int) == 0);
                        }
                        false
                    },
                }
            },
        }
    }

    /// The initial candidate set for an alternative's anchor part: the
    /// single id-indexed node, that tag's bucket, the smallest of the
    /// class buckets, or all node indices — always a superset of the
    /// part's matches.
    #[verifier::loop_isolation(false)]
    fn seed_for(&self, pt: &SelectorPart) -> (seed: Vec<usize>)
        requires
            self.wf(),
            pt@.wf(),
        ensures
            forall|j: int| 0 <= j < seed@.len() ==> (#[trigger] seed@[j] as int) < self.doc().len(),
            forall|i: int|
                0 <= i < self.doc().len() && crate::sem::part_matches(self.doc(), i, pt@)
                    ==> holds_index(seed@, i),
    {
        let ghost doc = self.doc();
        let ghost strings = self.strings();
        match &pt.id {
            Some(v) => {
                let mut seed: Vec<usize> = Vec::new();
                match self.sym_for(v) {
                    Some(s) => {
                        match self.ids[s] {
                            Some(x) => {
                                seed.push(x);
                            },
                            None => {},
                        }
                    },
                    None => {},
                }
                proof {
                    assert forall|i: int|
                        0 <= i < doc.len() && crate::sem::part_matches(doc, i, pt@)
                            implies holds_index(seed@, i) by {
                        assert(crate::sem::id_matches(doc, i, v@));
                        assert(node_id_of(doc[i].attrs) == Some(v@));
                        assert(strings.contains(v@));
                        let s = choose|s: int| 0 <= s < strings.len() && strings[s] == v@;
                        match self.ids@[s] {
                            Some(x) => {
                                crate::sem::lemma_id_unique(doc, strings[s], x as int, i);
                                assert(seed@[0] == x);
                            },
                            None => {
                                assert(false);
                            },
                        }
                    }
                }
                return seed;
            },
            None => {},
        }
        match &pt.element {
            Some(e) => {
                match self.sym_for(e) {
                    Some(t) => {
                        let seed = copy_bucket(&self.elements[t]);
                        proof {
                            assert forall|i: int|
                                0 <= i < doc.len() && crate::sem::part_matches(doc, i, pt@)
                                    implies holds_index(seed@, i) by {
                                assert(doc[i].tag == e@);
                                assert(e@.len() > 0);
                            }
                        }
                        return seed;
                    },
                    None => {
                        let seed: Vec<usize> = Vec::new();
                        proof {
                            assert forall|i: int|
                                0 <= i < doc.len() && crate::sem::part_matches(doc, i, pt@)
                                    implies holds_index(seed@, i) by {
                                assert(doc[i].tag == strings[self.arena.view_nodes()[
                                    i
                                ].tag_name as int]);
                                assert(strings.contains(doc[i].tag));
                            }
                        }
                        return seed;
                    },
                }
            },
            None => {},
        }
        if pt.classes.len() > 0 {
            let mut best: Option<usize> = None;
            let mut k: usize = 0;
            while k < pt.classes.len()
                invariant
                    k <= pt.classes@.len(),
                    k == 0 || best is Some,
                    match best {
                        Some(c) => (c as int) < strings.len() && exists|k2: int|
                            0 <= k2 < k && strings[c as int] == #[trigger] pt@.classes[k2],
                        None => true,
                    },
                decreases pt.classes@.len() - k,
            {
                match self.sym_for(&pt.classes[k]) {
                    Some(c) => {
                        proof {
                            assert(pt@.classes[k as int] == pt.classes@[k as int]@);
                        }
                        let take = match best {
                            Some(b2) => self.classes[c].len() < self.classes[b2].len(),
                            None => true,
                        };
                        if take {
                            best = Some(c);
                        }
                    },
                    None => {
                        let seed: Vec<usize> = Vec::new();
                        proof {
                            assert forall|i: int|
                                0 <= i < doc.len() && crate::sem::part_matches(doc, i, pt@)
                                    implies holds_index(seed@, i) by {
                                assert(pt@.classes[k as int] == pt.classes@[k as int]@);
                                assert(doc[i].classes.contains(pt@.classes[k as int]));
                                let m = choose|m: int|
                                    0 <= m < doc[i].classes.len() && doc[i].classes[m]
                                        == pt@.classes[k as int];
                                let csym = self.arena.view_nodes()[i].classes@[m];
                                assert(doc[i].classes[m] == strings[csym as int]);
                                assert(strings.contains(pt@.classes[k as int]));
                            }
                        }
                        return seed;
                    },
                }
                k += 1;
            }
            match best {
                Some(c) => {
                    let seed = copy_bucket(&self.classes[c]);
                    proof {
                        let k2 = choose|k2: int|
                            0 <= k2 < pt@.classes.len() && strings[c as int] == #[trigger] pt@.classes[k2];
                        assert forall|i: int|
                            0 <= i < doc.len() && crate::sem::part_matches(doc, i, pt@)
                                implies holds_index(seed@, i) by {
                            assert(doc[i].classes.contains(pt@.classes[k2]));
                        }
                    }
                    return seed;
                },
                None => {
                    proof {
                        assert(false);
                    }
                    let seed: Vec<usize> = Vec::new();
                    return seed;
                },
            }
        }
        let mut seed: Vec<usize> = Vec::new();
        let mut i: usize = 0;
        while i < self.arena.nodes.len()
            invariant
                i <= doc.len(),
                seed@.len() == i,
                forall|j: int| 0 <= j < i ==> #[trigger] seed@[j] == j,
            decreases doc.len() - i,
        {
            seed.push(i);
            i += 1;
        }
        proof {
            assert forall|i2: int|
                0 <= i2 < doc.len() && crate::sem::part_matches(doc, i2, pt@)
                    implies holds_index(seed@, i2) by {
                assert(seed@[i2] == i2);
            }
        }
        seed
    }

    /// Marks every node matching this alternative.
    #[verifier::loop_isolation(false)]
    fn query_seq(&self, sv: &SelectorSequence, marks: &mut Vec<bool>)
        requires
            self.wf(),
            sv@.wf(),
            old(marks)@.len() == self.doc().len(),
        ensures
            final(marks)@.len() == self.doc().len(),
            forall|i: int|
                0 <= i < self.doc().len() ==> final(marks)@[i] == (old(marks)@[i]
                    || crate::sem::sequence_matches(self.doc(), i, sv@)),
    {
        let ghost doc = self.doc();
        let last = sv.parts.len() - 1;
        proof {
            assert(sv@.parts[last as int] == sv.parts@[last as int]@);
        }
        let seed = self.seed_for(&sv.parts[last]);
        let mut j: usize = 0;
        while j < seed.len()
            invariant
                j <= seed@.len(),
                marks@.len() == doc.len(),
                forall|i: int|
                    0 <= i < doc.len() ==> (#[trigger] marks@[i] ==> (old(marks)@[i]
                        || crate::sem::sequence_matches(doc, i, sv@))),
                forall|i: int| 0 <= i < doc.len() && old(marks)@[i] ==> #[trigger] marks@[i],
                forall|i: int|
                    0 <= i < doc.len() && crate::sem::sequence_matches(doc, i, sv@) && in_first(
                        seed@,
                        j as int,
                        i,
                    ) ==> #[trigger] marks@[i],
            decreases seed@.len() - j,
        {
            let s = seed[j];
            if self.matches_upto(s, sv, last) {
                marks[s] = true;
            }
            j += 1;
        }
        proof {
            assert forall|i: int|
                0 <= i < doc.len() implies marks@[i] == (old(marks)@[i]
                || crate::sem::sequence_matches(doc, i, sv@)) by {
                if crate::sem::sequence_matches(doc, i, sv@) && !old(marks)@[i] {
                    assert(crate::sem::seq_matches_upto(doc, i, sv@, sv@.parts.len() - 1));
                    assert(crate::sem::part_matches(doc, i, sv@.parts[last as int]));
                    assert(holds_index(seed@, i));
                    let j2 = choose|j2: int| 0 <= j2 < seed@.len() && seed@[j2] == i;
                    assert(in_first(seed@, seed@.len() as int, i));
                }
            }
        }
    }

    /// Compiles the selector text (through the cache) and returns the
    /// sorted, deduplicated node indices it matches; a malformed
    /// selector is reported as its syntax error.  The document itself
    /// is never changed — only the selector cache may grow.
    #[verifier::loop_isolation(false)]
    pub fn query(&mut self, selector: &str) -> (r: Result<
        Vec<usize>,
        crate::parser::SelectorSyntaxError,
    >)
        requires
            old(self).wf(),
        ensures
            final(self).wf(),
            final(self).doc() == old(self).doc(),
            final(self).strings() == old(self).strings(),
            final(self).source_view() == old(self).source_view(),
            final(self).doctype_spec() == old(self).doctype_spec(),
            match r {
                Ok(v) => crate::parser::parse_spec(selector@) is Ok && crate::sem::query_post(
                    old(self).doc(),
                    crate::sem::parsed(selector@),
                    v@,
                ),
                Err(e) => crate::parser::parse_spec(selector@) == Err::<
                    crate::selector::SelectorView,
                    crate::parser::SelectorSyntaxError,
                >(e),
            },
    {
        let ghost doc = self.doc();
        let cs = chars_of(selector);
        let sel: Selector = match self.selector_cache.get(&cs) {
            Some(s) => s,
            None => {
                match crate::parser::parse_selector(selector) {
                    Ok(s) => {
                        self.selector_cache.insert(cs, s.clone());
                        s
                    },
                    Err(e) => {
                        return Err(e);
                    },
                }
            },
        };
        let ghost selv = sel@;
        let mut marks: Vec<bool> = Vec::new();
        let n = self.arena.nodes.len();
        let mut i: usize = 0;
        while i < n
            invariant
                i <= n,
                marks@.len() == i,
                forall|m: int| 0 <= m < i ==> !(#[trigger] marks@[m]),
            decreases n - i,
        {
            marks.push(false);
            i += 1;
        }
        let mut a: usize = 0;
        while a < sel.alternatives.len()
            invariant
                self.wf(),
                doc == self.doc(),
                a <= sel.alternatives@.len(),
                selv == sel@,
                selv.wf(),
                marks@.len() == doc.len(),
                forall|m: int|
                    0 <= m < doc.len() ==> (#[trigger] marks@[m] == exists|a2: int|
                        0 <= a2 < a && crate::sem::sequence_matches(
                            doc,
                            m,
                            #[trigger] selv.alternatives[a2],
                        )),
            decreases sel.alternatives@.len() - a,
        {
            let ghost marks_before = marks@;
            proof {
                assert(selv.alternatives[a as int] == sel.alternatives@[a as int]@);
            }
            self.query_seq(&sel.alternatives[a], &mut marks);
            proof {
                assert forall|m: int| 0 <= m < doc.len() implies (#[trigger] marks@[m]
                    == exists|a2: int|
                    0 <= a2 < a + 1 && crate::sem::sequence_matches(
                        doc,
                        m,
                        #[trigger] selv.alternatives[a2],
                    )) by {
                    if marks@[m] {
                        if marks_before[m] {
                            let a2 = choose|a2: int|
                                0 <= a2 < a && crate::sem::sequence_matches(
                                    doc,
                                    m,
                                    #[trigger] selv.alternatives[a2],
                                );
                            assert(crate::sem::sequence_matches(doc, m, selv.alternatives[a2]));
                        } else {
                            assert(crate::sem::sequence_matches(
                                doc,
                                m,
                                selv.alternatives[a as int],
                            ));
                        }
                    } else {
                        if exists|a2: int|
                            0 <= a2 < a + 1 && crate::sem::sequence_matches(
                                doc,
                                m,
                                #[trigger] selv.alternatives[a2],
                            ) {
                            let a2 = choose|a2: int|
                                0 <= a2 < a + 1 && crate::sem::sequence_matches(
                                    doc,
                                    m,
                                    #[trigger] selv.alternatives[a2],
                                );
                            if a2 < a {
                                assert(marks_before[m]);
                            }
                            assert(false);
                        }
                    }
                }
            }
            a += 1;
        }
        let mut result: Vec<usize> = Vec::new();
        let mut i2: usize = 0;
        while i2 < n
            invariant
                i2 <= n,
                n == doc.len(),
                marks@.len() == doc.len(),
                forall|j: int, j2: int|
                    0 <= j < j2 < result@.len() ==> result@[j] < result@[j2],
                forall|j: int| 0 <= j < result@.len() ==> (#[trigger] result@[j] as int) < i2,
                forall|m: int|
                    0 <= m < i2 ==> (holds_index(result@, m) <==> marks@[m]),
            decreases n - i2,
        {
            if marks[i2] {
                let ghost before = result@;
                result.push(i2);
                proof {
                    assert forall|m: int| 0 <= m < i2 + 1 implies (holds_index(result@, m)
                        <==> marks@[m]) by {
                        if m == i2 as int {
                            assert(result@[result@.len() - 1] == i2);
                        } else {
                            if holds_index(result@, m) {
                                let j = choose|j: int|
                                    0 <= j < result@.len() && result@[j] == m;
                                assert(j < result@.len() - 1);
                                assert(before[j] == m);
                            }
                            if holds_index(before, m) {
                                let j = choose|j: int| 0 <= j < before.len() && before[j] == m;
                                assert(result@[j] == m);
                            }
                        }
                    }
                }
            }
            i2 += 1;
        }
        proof {
            assert(crate::sem::parsed(selector@) == selv);
            assert forall|m: int| 0 <= m < doc.len() implies (holds_index(result@, m)
                <==> crate::sem::selector_matches(doc, m, selv)) by {}
        }
        Ok(result)
    }

    /// The compiled form of this exact selector text, through the
    /// cache: a cache hit returns a clone of the stored selector, a
    /// miss parses (purely) and stores the result.
    pub fn get_or_parse(&mut self, selector: &str) -> (r: Result<
        Selector,
        crate::parser::SelectorSyntaxError,
    >)
        requires
            old(self).wf(),
        ensures
            final(self).wf(),
            final(self).doc() == old(self).doc(),
            final(self).strings() == old(self).strings(),
            final(self).source_view() == old(self).source_view(),
            final(self).doctype_spec() == old(self).doctype_spec(),
            match r {
                Ok(sel) => crate::parser::parse_spec(selector@) == Ok::<
                    crate::selector::SelectorView,
                    crate::parser::SelectorSyntaxError,
                >(sel@) && sel@.wf(),
                Err(e) => crate::parser::parse_spec(selector@) == Err::<
                    crate::selector::SelectorView,
                    crate::parser::SelectorSyntaxError,
                >(e),
            },
    {
        let cs = chars_of(selector);
        match self.selector_cache.get(&cs) {
            Some(s) => Ok(s),
            None => {
                match crate::parser::parse_selector(selector) {
                    Ok(s) => {
                        self.selector_cache.insert(cs, s.clone());
                        Ok(s)
                    },
                    Err(e) => Err(e),
                }
            },
        }
    }
}

/// The trimmed, space-joined direct text of a subtree, in pre-order:
/// each node's recorded text followed by a space, then its children's.
pub open spec fn subtree_text(doc: Seq<NodeView>, i: int) -> Seq<char>
    decreases doc.len() - i, 1int,
{
    if 0 <= i < doc.len() {
        (match doc[i].text {
            Some(t) => t.push(' '),
            None => Seq::empty(),
        }) + children_text(doc, doc[i].children, i)
    } else {
        Seq::empty()
    }
}

/// The concatenated subtree text of a child list (children after `i`).
pub open spec fn children_text(doc: Seq<NodeView>, cs: Seq<int>, i: int) -> Seq<char>
    decreases doc.len() - i, 0int, cs.len(),
{
    if cs.len() == 0 {
        Seq::empty()
    } else {
        (if i < cs[0] < doc.len() {
            subtree_text(doc, cs[0])
        } else {
            Seq::empty()
        }) + children_text(doc, cs.drop_first(), i)
    }
}

/// How many steps separate node `i` from the root, itself included.
pub open spec fn depth_of(doc: Seq<NodeView>, i: int) -> nat
    decreases (if i >= 0 {
        i
    } else {
        0
    }),
{
    if 0 <= i < doc.len() {
        match doc[i].parent {
            Some(p) => if 0 <= p < i {
                1 + depth_of(doc, p)
            } else {
                1
            },
            None => 1,
        }
    } else {
        0
    }
}

impl DOMIndex {
    /// Whether node `index`'s class set holds the named class.
    pub fn has_class(&self, index: usize, class: &str) -> (b: bool)
        requires
            self.wf(),
        ensures
            b == ((index as int) < self.doc().len() && self.doc()[index as int].classes.contains(
                class@,
            )),
    {
        if index >= self.arena.len() {
            return false;
        }
        let c = chars_of(class);
        self.node_has_class(index, &c)
    }

    /// The first attribute of node `index` with the given name, if any.
    #[verifier::loop_isolation(false)]
    pub fn get_attribute(&self, index: usize, name: &str) -> (r: Option<&IndexedAttribute>)
        requires
            self.wf(),
            (index as int) < self.doc().len(),
        ensures
            match r {
                Some(a) => exists|k: int|
                    0 <= k < self.doc()[index as int].attrs.len() && (#[trigger] self.doc()[
                    index as int].attrs[k]).name == name@ && self.doc()[index as int].attrs[k].value
                        == self.strings()[a.value as int] && (a.value as int)
                        < self.strings().len(),
                None => forall|k: int|
                    0 <= k < self.doc()[index as int].attrs.len() ==> (#[trigger] self.doc()[
                    index as int].attrs[k]).name != name@,
            },
    {
        let ghost doc = self.doc();
        let ghost strings = self.strings();
        let ghost vattrs = doc[index as int].attrs;
        let nc = chars_of(name);
        let ns = match self.sym_for(&nc) {
            Some(t) => t,
            None => {
                proof {
                    assert forall|k: int| 0 <= k < vattrs.len() implies (#[trigger] vattrs[k]).name
                        != name@ by {
                        let nsym = self.arena.view_nodes()[index as int].attributes@[k].name;
                        assert(vattrs[k].name == strings[nsym as int]);
                        assert(strings.contains(strings[nsym as int]));
                    }
                }
                return None;
            },
        };
        let attrs = &self.arena.nodes[index].attributes;
        let mut k: usize = 0;
        while k < attrs.len()
            invariant
                vattrs.len() == attrs@.len(),
                k <= attrs@.len(),
                forall|m: int| 0 <= m < k ==> (#[trigger] vattrs[m]).name != name@,
            decreases attrs@.len() - k,
        {
            proof {
                assert(vattrs[k as int].name == strings[attrs@[k as int].name as int]);
                assert(vattrs[k as int].value == strings[attrs@[k as int].value as int]);
            }
            if attrs[k].name == ns {
                return Some(&attrs[k]);
            }
            proof {
                lemma_sym_eq(strings, attrs@[k as int].name as int, ns as int);
            }
            k += 1;
        }
        None
    }

    /// Whether some ancestor of node `index` carries the given tag.
    #[verifier::loop_isolation(false)]
    pub fn has_parent_of_type(&self, index: usize, tag: &str) -> (b: bool)
        requires
            self.wf(),
            (index as int) < self.doc().len(),
        ensures
            b == exists|a: int|
                crate::sem::is_ancestor(self.doc(), a, index as int) && (#[trigger] self.doc()[
                a]).tag == tag@,
    {
        let ghost doc = self.doc();
        let ghost strings = self.strings();
        let tc = chars_of(tag);
        let tsym = self.sym_for(&tc);
        let mut cur = index;
        loop
            invariant
                cur <= index,
                (cur as int) < doc.len(),
                cur == index || crate::sem::is_ancestor(doc, cur as int, index as int),
                forall|a: int|
                    crate::sem::is_ancestor(doc, a, index as int) && !crate::sem::is_ancestor(
                        doc,
                        a,
                        cur as int,
                    ) && a != cur as int ==> (#[trigger] doc[a]).tag != tag@,
                cur != index ==> doc[cur as int].tag != tag@,
            decreases cur,
        {
            match self.arena.nodes[cur].parent {
                Some(p) => {
                    proof {
                        assert(doc[cur as int].parent == Some(p as int));
                        assert(crate::dom::parents_ok(doc));
                        if cur == index {
                            assert(crate::sem::is_ancestor(doc, p as int, index as int));
                        } else {
                            crate::sem::lemma_ancestor_parent(
                                doc,
                                cur as int,
                                index as int,
                                p as int,
                            );
                        }
                    }
                    let tag_hit = match tsym {
                        Some(t) => self.arena.nodes[p].tag_name == t,
                        None => false,
                    };
                    proof {
                        assert(doc[p as int].tag == strings[self.arena.view_nodes()[
                            p as int
                        ].tag_name as int]);
                        match tsym {
                            Some(t) => {
                                lemma_sym_eq(
                                    strings,
                                    self.arena.view_nodes()[p as int].tag_name as int,
                                    t as int,
                                );
                            },
                            None => {
                                assert(strings.contains(doc[p as int].tag));
                            },
                        }
                    }
                    if tag_hit {
                        return true;
                    }
                    proof {
                        let oldcur = cur as int;
                        assert forall|a: int|
                            crate::sem::is_ancestor(doc, a, index as int)
                                && !crate::sem::is_ancestor(doc, a, p as int) && a
                                != p as int implies (#[trigger] doc[a]).tag != tag@ by {
                            if a == oldcur {
                                if cur == index {
                                    crate::sem::lemma_ancestor_lt(doc, a, index as int);
                                    assert(false);
                                }
                            } else if crate::sem::is_ancestor(doc, a, oldcur) {
                                assert(false);
                            }
                        }
                    }
                    cur = p;
                },
                None => {
                    proof {
                        assert(doc[cur as int].parent is None);
                        assert forall|a: int|
                            crate::sem::is_ancestor(doc, a, index as int) implies (
                        #[trigger] doc[a]).tag != tag@ by {
                            if a == cur as int {
                                if cur == index {
                                    crate::sem::lemma_ancestor_lt(doc, a, index as int);
                                    assert(false);
                                }
                            } else if crate::sem::is_ancestor(doc, a, cur as int) {
                                assert(false);
                            }
                        }
                    }
                    return false;
                },
            }
        }
    }

    /// The node's depth in the tree: 1 for the root.
    #[verifier::loop_isolation(false)]
    pub fn get_node_depth(&self, index: usize) -> (r: usize)
        requires
            self.wf(),
            (index as int) < self.doc().len(),
        ensures
            r == depth_of(self.doc(), index as int),
    {
        let ghost doc = self.doc();
        let total = self.arena.len();
        let mut depth: usize = 1;
        let mut cur = index;
        loop
            invariant
                (cur as int) < doc.len(),
                cur <= index,
                depth >= 1,
                depth - 1 <= index - cur,
                depth + depth_of(doc, cur as int) - 1 == depth_of(doc, index as int),
            decreases cur,
        {
            match self.arena.nodes[cur].parent {
                Some(p) => {
                    proof {
                        assert(doc[cur as int].parent == Some(p as int));
                        assert(crate::dom::parents_ok(doc));
                        assert(1 <= cur);
                        assert(depth < total <= usize::MAX);
                    }
                    depth += 1;
                    cur = p;
                },
                None => {
                    proof {
                        assert(doc[cur as int].parent is None);
                        assert(depth_of(doc, cur as int) == 1);
                    }
                    return depth;
                },
            }
        }
    }

    /// The trimmed, space-joined text of node `index`'s subtree.
    pub fn get_node_text_content(&self, index: usize) -> (r: String)
        requires
            self.wf(),
            (index as int) < self.doc().len(),
        ensures
            r@ == trim_spec(subtree_text(self.doc(), index as int)),
    {
        let mut out: Vec<char> = Vec::new();
        self.collect_text(index, &mut out);
        chars_to_string(&trim_chars(&out))
    }

    /// Appends the subtree text of node `index` to `out`.
    #[verifier::loop_isolation(false)]
    fn collect_text(&self, index: usize, out: &mut Vec<char>)
        requires
            self.wf(),
            (index as int) < self.doc().len(),
        ensures
            final(out)@ == old(out)@ + subtree_text(self.doc(), index as int),
        decreases self.doc().len() - index,
    {
        let ghost doc = self.doc();
        match self.arena.nodes[index].text_content {
            Some(t) => {
                proof {
                    assert(doc[index as int].text == Some(
                        crate::dom::sym_str(self.strings(), t),
                    ));
                }
                let s = self.interner.resolve(t).unwrap();
                let sc = chars_of(s.as_str());
                let mut m: usize = 0;
                while m < sc.len()
                    invariant
                        m <= sc@.len(),
                        out@ == old(out)@ + sc@.subrange(0, m as int),
                    decreases sc@.len() - m,
                {
                    out.push(sc[m]);
                    proof {
                        assert(out@ =~= old(out)@ + sc@.subrange(0, m + 1 as int));
                    }
                    m += 1;
                }
                out.push(' ');
                proof {
                    assert(sc@.subrange(0, sc@.len() as int) =~= sc@);
                    assert(out@ =~= old(out)@ + sc@.push(' '));
                }
            },
            None => {
                proof {
                    assert(doc[index as int].text is None);
                    assert(out@ =~= old(out)@ + Seq::<char>::empty());
                }
            },
        }
        let ghost cs_full = doc[index as int].children;
        let n_children = self.arena.nodes[index].children.len();
        let ghost mid = out@;
        let mut c: usize = 0;
        proof {
            assert(cs_full =~= self.arena.view_nodes()[index as int].children@.map_values(
                |x: usize| x as int,
            ));
            assert(mid + children_text_upto(doc, cs_full, index as int, 0) =~= mid);
        }
        while c < n_children
            invariant
                c <= n_children,
                n_children == cs_full.len(),
                out@ == mid + children_text_upto(doc, cs_full, index as int, c as int),
            decreases n_children - c,
        {
            let child = self.arena.nodes[index].children[c];
            proof {
                assert(cs_full[c as int] == child as int);
                assert(crate::dom::children_ok(doc));
                assert((index as int) < (child as int) < doc.len());
            }
            self.collect_text(child, out);
            proof {
                lemma_children_text_upto_step(doc, cs_full, index as int, c as int);
                assert(out@ =~= mid + children_text_upto(
                    doc,
                    cs_full,
                    index as int,
                    c + 1 as int,
                ));
            }
            c += 1;
        }
        proof {
            lemma_children_text_upto_full(doc, cs_full, index as int);
            assert(out@ =~= old(out)@ + subtree_text(doc, index as int));
        }
    }
}

/// The concatenated subtree text of the first `n` children.
pub open spec fn children_text_upto(doc: Seq<NodeView>, cs: Seq<int>, i: int, n: int) -> Seq<char>
    decreases n,
{
    if n <= 0 {
        Seq::empty()
    } else {
        children_text_upto(doc, cs, i, n - 1) + (if i < cs[n - 1] < doc.len() {
            subtree_text(doc, cs[n - 1])
        } else {
            Seq::empty()
        })
    }
}

proof fn lemma_children_text_upto_step(doc: Seq<NodeView>, cs: Seq<int>, i: int, c: int)
    requires
        0 <= c,
    ensures
        children_text_upto(doc, cs, i, c + 1) == children_text_upto(doc, cs, i, c) + (if i < cs[c]
            < doc.len() {
            subtree_text(doc, cs[c])
        } else {
            Seq::empty()
        }),
{
}

proof fn lemma_children_text_upto_full(doc: Seq<NodeView>, cs: Seq<int>, i: int)
    ensures
        children_text_upto(doc, cs, i, cs.len() as int) == children_text(doc, cs, i),
    decreases cs.len(),
{
    if cs.len() > 0 {
        lemma_children_text_upto_full(doc, cs.drop_first(), i);
        lemma_children_text_upto_shift(doc, cs, i, cs.len() - 1);
        assert(children_text_upto(doc, cs.drop_first(), i, cs.len() - 1) == children_text(
            doc,
            cs.drop_first(),
            i,
        ));
    } else {
        assert(children_text_upto(doc, cs, i, 0) =~= children_text(doc, cs, i));
    }
}

proof fn lemma_children_text_upto_shift(doc: Seq<NodeView>, cs: Seq<int>, i: int, n: int)
    requires
        cs.len() > 0,
        0 <= n <= cs.len() - 1,
    ensures
        children_text_upto(doc, cs, i, n + 1) == (if i < cs[0] < doc.len() {
            subtree_text(doc, cs[0])
        } else {
            Seq::<char>::empty()
        }) + children_text_upto(doc, cs.drop_first(), i, n),
    decreases n,
{
    reveal_with_fuel(children_text_upto, 3);
    if n == 0 {
        assert(children_text_upto(doc, cs, i, 1) =~= (if i < cs[0] < doc.len() {
            subtree_text(doc, cs[0])
        } else {
            Seq::<char>::empty()
        }) + children_text_upto(doc, cs.drop_first(), i, 0));
    } else {
        lemma_children_text_upto_shift(doc, cs, i, n - 1);
        assert(cs.drop_first()[n - 1] == cs[n]);
        assert(children_text_upto(doc, cs, i, n + 1) =~= (if i < cs[0] < doc.len() {
            subtree_text(doc, cs[0])
        } else {
            Seq::<char>::empty()
        }) + children_text_upto(doc, cs.drop_first(), i, n));
    }
}

impl DOMIndex {
    /// A short anchor selector for node `index`: `#` followed by the
    /// node's id value when it has an `id` attribute, otherwise `#`
    /// followed by its tag name.
    #[verifier::loop_isolation(false)]
    pub fn get_selector(&self, index: usize) -> (r: String)
        requires
            self.wf(),
            (index as int) < self.doc().len(),
        ensures
            r@ == seq!['#'] + (match first_id_attr(self.doc()[index as int].attrs) {
                Some(v) => v,
                None => self.doc()[index as int].tag,
            }),
    {
        let ghost doc = self.doc();
        let ghost strings = self.strings();
        let ghost vattrs = doc[index as int].attrs;
        let mut out: Vec<char> = Vec::new();
        out.push('#');
        let attrs = &self.arena.nodes[index].attributes;
        let id_sym_opt = self.interner.get("id");
        proof {
            reveal_strlit("id");
            assert("id"@ =~= id_name());
        }
        let mut k: usize = 0;
        while k < attrs.len()
            invariant
                k <= attrs@.len(),
                vattrs.len() == attrs@.len(),
                out@ =~= seq!['#'],
                forall|m: int| 0 <= m < k ==> (#[trigger] vattrs[m]).name != id_name(),
            decreases attrs@.len() - k,
        {
            proof {
                assert(vattrs[k as int].name == strings[attrs@[k as int].name as int]);
                assert(vattrs[k as int].value == strings[attrs@[k as int].value as int]);
            }
            let is_id = match id_sym_opt {
                Some(ids) => attrs[k].name == ids,
                None => false,
            };
            proof {
                match id_sym_opt {
                    Some(ids) => {
                        lemma_sym_eq(strings, attrs@[k as int].name as int, ids as int);
                    },
                    None => {
                        assert(strings.contains(vattrs[k as int].name));
                    },
                }
            }
            if is_id {
                proof {
                    lemma_first_id_attr_at(vattrs, k as int);
                }
                let v = self.interner.resolve(attrs[k].value).unwrap();
                let vc = chars_of(v.as_str());
                let mut m: usize = 0;
                proof {
                    assert(out@ =~= seq!['#'] + vc@.subrange(0, 0));
                }
                while m < vc.len()
                    invariant
                        m <= vc@.len(),
                        out@ == seq!['#'] + vc@.subrange(0, m as int),
                    decreases vc@.len() - m,
                {
                    out.push(vc[m]);
                    proof {
                        assert(out@ =~= seq!['#'] + vc@.subrange(0, m + 1 as int));
                    }
                    m += 1;
                }
                proof {
                    assert(vc@.subrange(0, vc@.len() as int) =~= vc@);
                }
                return chars_to_string(&out);
            }
            k += 1;
        }
        proof {
            lemma_first_id_attr_none(vattrs);
        }
        let t = self.interner.resolve(self.arena.nodes[index].tag_name).unwrap();
        let tc = chars_of(t.as_str());
        let mut m: usize = 0;
        proof {
            assert(out@ =~= seq!['#'] + tc@.subrange(0, 0));
        }
        while m < tc.len()
            invariant
                m <= tc@.len(),
                out@ == seq!['#'] + tc@.subrange(0, m as int),
            decreases tc@.len() - m,
        {
            out.push(tc[m]);
            proof {
                assert(out@ =~= seq!['#'] + tc@.subrange(0, m + 1 as int));
            }
            m += 1;
        }
        proof {
            assert(tc@.subrange(0, tc@.len() as int) =~= tc@);
        }
        chars_to_string(&out)
    }
}

/// The value of the first attribute named `id`, if any.
pub open spec fn first_id_attr(attrs: Seq<AttrView>) -> Option<Seq<char>>
    decreases attrs.len(),
{
    if attrs.len() == 0 {
        None
    } else if attrs[0].name == id_name() {
        Some(attrs[0].value)
    } else {
        first_id_attr(attrs.drop_first())
    }
}

proof fn lemma_first_id_attr_at(attrs: Seq<AttrView>, k: int)
    requires
        0 <= k < attrs.len(),
        attrs[k].name == id_name(),
        forall|m: int| 0 <= m < k ==> (#[trigger] attrs[m]).name != id_name(),
    ensures
        first_id_attr(attrs) == Some(attrs[k].value),
    decreases k,
{
    if k > 0 {
        let t = attrs.drop_first();
        assert forall|m: int| 0 <= m < k - 1 implies (#[trigger] t[m]).name != id_name() by {
            assert(t[m] == attrs[m + 1]);
        }
        assert(t[k - 1] == attrs[k]);
        lemma_first_id_attr_at(t, k - 1);
    }
}

proof fn lemma_first_id_attr_none(attrs: Seq<AttrView>)
    requires
        forall|m: int| 0 <= m < attrs.len() ==> (#[trigger] attrs[m]).name != id_name(),
    ensures
        first_id_attr(attrs) is None,
    decreases attrs.len(),
{
    if attrs.len() > 0 {
        let t = attrs.drop_first();
        assert forall|m: int| 0 <= m < t.len() implies (#[trigger] t[m]).name != id_name() by {
            assert(t[m] == attrs[m + 1]);
        }
        lemma_first_id_attr_none(t);
    }
}

} // verus!
