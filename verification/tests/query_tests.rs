//! Query engine behavior on small documents: attribute operators,
//! combinators, pseudo-classes, id tie-breaks and end-to-end runs.

use html_linter::dom::{RawAttribute, RawNode};
use html_linter::index::DOMIndex;

fn el(tag: &str, attrs: &[(&str, &str)], children: Vec<RawNode>) -> RawNode {
    RawNode::Element {
        tag: tag.to_string(),
        attrs: attrs
            .iter()
            .map(|(n, v)| RawAttribute {
                name: n.to_string(),
                value: v.to_string(),
            })
            .collect(),
        children,
    }
}

fn text(t: &str) -> RawNode {
    RawNode::Text {
        text: t.to_string(),
    }
}

fn doc(children: Vec<RawNode>) -> RawNode {
    RawNode::Document { children }
}

#[test]
fn test_attribute_operators() {
    let root = doc(vec![el("a", &[("data-x", "foobar")], vec![])]);
    let mut index = DOMIndex::new(&root, "<a data-x='foobar'></a>");
    assert_eq!(index.query("[data-x^=foo]").unwrap(), vec![1]);
    assert_eq!(index.query("[data-x$=bar]").unwrap(), vec![1]);
    assert_eq!(index.query("[data-x*=oob]").unwrap(), vec![1]);
    assert_eq!(index.query("[data-x=foobar]").unwrap(), vec![1]);
    assert_eq!(index.query("[data-x=foo]").unwrap(), Vec::<usize>::new());
}

#[test]
fn test_attribute_list_and_dash_operators() {
    let root = doc(vec![
        el("p", &[("cls", "a b c")], vec![]),
        el("p", &[("lang", "en-US")], vec![]),
        el("p", &[("lang", "en")], vec![]),
    ]);
    let mut index = DOMIndex::new(&root, "");
    assert_eq!(index.query("[cls~=b]").unwrap(), vec![1]);
    assert_eq!(index.query("[cls~=ab]").unwrap(), Vec::<usize>::new());
    assert_eq!(index.query("[lang|=en]").unwrap(), vec![2, 3]);
    assert_eq!(index.query("[lang|=e]").unwrap(), Vec::<usize>::new());
}

#[test]
fn test_combinators() {
    // <div><p><span/></p></div>: indices 0=root 1=div 2=p 3=span
    let root = doc(vec![el("div", &[], vec![el("p", &[], vec![el("span", &[], vec![])])])]);
    let mut index = DOMIndex::new(&root, "");
    assert_eq!(index.query("div > p").unwrap(), vec![2]);
    assert_eq!(index.query("div > span").unwrap(), Vec::<usize>::new());
    assert_eq!(index.query("div span").unwrap(), vec![3]);
}

#[test]
fn test_sibling_combinators() {
    // 1=ul, children 2=a 3=b 4=c
    let root = doc(vec![el(
        "ul",
        &[],
        vec![
            el("li", &[("id", "a")], vec![]),
            el("li", &[("id", "b")], vec![]),
            el("li", &[("id", "c")], vec![]),
        ],
    )]);
    let mut index = DOMIndex::new(&root, "");
    assert_eq!(index.query("#a + li").unwrap(), vec![3]);
    assert_eq!(index.query("#b + li").unwrap(), vec![4]);
    assert_eq!(index.query("#a ~ li").unwrap(), vec![3, 4]);
    assert_eq!(index.query("#c + li").unwrap(), Vec::<usize>::new());
}

#[test]
fn test_empty_semantics() {
    let root1 = doc(vec![el("div", &[], vec![])]);
    let mut index1 = DOMIndex::new(&root1, "<div></div>");
    assert_eq!(index1.query("div:empty").unwrap(), vec![1]);

    // Whitespace-only text is never materialized, so the div is still empty.
    let root2 = doc(vec![el("div", &[], vec![text("   ")])]);
    let mut index2 = DOMIndex::new(&root2, "<div>   </div>");
    assert_eq!(index2.query("div:empty").unwrap(), vec![1]);

    let root3 = doc(vec![el("div", &[], vec![text("hi")])]);
    let mut index3 = DOMIndex::new(&root3, "<div>hi</div>");
    assert_eq!(index3.query("div:empty").unwrap(), Vec::<usize>::new());
}

#[test]
fn test_id_tie_break() {
    let root = doc(vec![
        el("div", &[("id", "dup")], vec![]),
        el("span", &[("id", "dup")], vec![]),
    ]);
    let mut index = DOMIndex::new(&root, "");
    // The id index stores exactly one node: the later one in build order.
    assert_eq!(index.query("#dup").unwrap(), vec![2]);
}

#[test]
fn test_end_to_end_list() {
    // 0=root 1=ul 2=li.a 3=text 4=li.b 5=text
    let root = doc(vec![el(
        "ul",
        &[],
        vec![
            el("li", &[("class", "a")], vec![text("1")]),
            el("li", &[("class", "b")], vec![text("2")]),
        ],
    )]);
    let mut index = DOMIndex::new(&root, "<ul><li class='a'>1</li><li class='b'>2</li></ul>");
    assert_eq!(index.query("li.a").unwrap(), vec![2]);
    assert_eq!(index.query("ul > li").unwrap(), vec![2, 4]);
    assert_eq!(index.query("li:first-child").unwrap(), vec![2]);
}

#[test]
fn test_query_deterministic() {
    let root = doc(vec![el(
        "div",
        &[],
        vec![el("p", &[("class", "x")], vec![]), el("p", &[], vec![])],
    )]);
    let mut index = DOMIndex::new(&root, "");
    let first = index.query("div p.x, p").unwrap();
    let second = index.query("div p.x, p").unwrap();
    assert_eq!(first, second);
}

#[test]
fn test_query_subset_of_universal() {
    let root = doc(vec![el(
        "div",
        &[],
        vec![el("p", &[], vec![text("t")]), el("span", &[], vec![])],
    )]);
    let mut index = DOMIndex::new(&root, "");
    let all = index.query("*").unwrap();
    for sel in ["p", "div p", "span", "div", ":empty", "p, span"] {
        let sub = index.query(sel).unwrap();
        for i in &sub {
            assert!(all.contains(i), "query({:?}) not a subset of query(\"*\")", sel);
        }
    }
    // The universal query returns every node index.
    assert_eq!(all, (0..index.get_nodes().len()).collect::<Vec<_>>());
}

#[test]
fn test_nth_child() {
    let root = doc(vec![el(
        "ul",
        &[],
        vec![
            el("li", &[], vec![]),
            el("li", &[], vec![]),
            el("li", &[], vec![]),
            el("li", &[], vec![]),
        ],
    )]);
    let mut index = DOMIndex::new(&root, "");
    assert_eq!(index.query("li:nth-child(2n+1)").unwrap(), vec![2, 4]);
    assert_eq!(index.query("li:nth-child(2)").unwrap(), vec![3]);
    assert_eq!(index.query("li:nth-child(-n+2)").unwrap(), vec![2, 3]);
    assert_eq!(index.query("li:nth-last-child(1)").unwrap(), vec![5]);
    assert_eq!(index.query("li:last-child").unwrap(), vec![5]);
}

#[test]
fn test_of_type_and_only() {
    // div with children: h1, p, p
    let root = doc(vec![el(
        "div",
        &[],
        vec![
            el("h1", &[], vec![]),
            el("p", &[], vec![]),
            el("p", &[], vec![]),
        ],
    )]);
    let mut index = DOMIndex::new(&root, "");
    assert_eq!(index.query("h1:first-of-type").unwrap(), vec![2]);
    assert_eq!(index.query("p:first-of-type").unwrap(), vec![3]);
    assert_eq!(index.query("p:last-of-type").unwrap(), vec![4]);
    assert_eq!(index.query("h1:only-of-type").unwrap(), vec![2]);
    assert_eq!(index.query("p:only-of-type").unwrap(), Vec::<usize>::new());
    let single = doc(vec![el("div", &[], vec![el("p", &[], vec![])])]);
    let mut index2 = DOMIndex::new(&single, "");
    assert_eq!(index2.query("p:only-child").unwrap(), vec![2]);
}

#[test]
fn test_not_pseudo_class() {
    let root = doc(vec![el(
        "ul",
        &[],
        vec![
            el("li", &[("class", "a")], vec![]),
            el("li", &[("class", "b")], vec![]),
        ],
    )]);
    let mut index = DOMIndex::new(&root, "");
    assert_eq!(index.query("li:not(.a)").unwrap(), vec![3]);
    assert_eq!(index.query("li:not(.c)").unwrap(), vec![2, 3]);
}

#[test]
fn test_query_selector_error() {
    let root = doc(vec![el("div", &[], vec![])]);
    let mut index = DOMIndex::new(&root, "");
    assert!(index.query("[oops").is_err());
    assert!(index.query(":hover").is_err());
}

#[test]
fn test_get_node_and_resolve_symbol() {
    let root = doc(vec![el("div", &[("id", "main")], vec![])]);
    let index = DOMIndex::new(&root, "");
    let node = index.get_node(1).expect("node 1 exists");
    assert_eq!(index.resolve_symbol(node.tag_name).unwrap(), "div");
    assert_eq!(node.attributes.len(), 1);
    assert_eq!(
        index.resolve_symbol(node.attributes[0].name).unwrap(),
        "id"
    );
    assert_eq!(
        index.resolve_symbol(node.attributes[0].value).unwrap(),
        "main"
    );
    assert!(index.get_node(99).is_none());
    assert!(index.resolve_symbol(usize::MAX).is_none());
}

#[test]
fn test_text_content_trimmed() {
    let root = doc(vec![el("p", &[], vec![text("  hello  ")])]);
    let index = DOMIndex::new(&root, "");
    let t = index.get_node(2).expect("text node exists");
    let sym = t.text_content.expect("text recorded");
    assert_eq!(index.resolve_symbol(sym).unwrap(), "hello");
    assert_eq!(t.parent, Some(1));
    let p = index.get_node(1).unwrap();
    assert_eq!(p.children, vec![2]);
}

#[test]
fn test_has_doctype() {
    let with = RawNode::Document {
        children: vec![RawNode::Doctype, el("html", &[], vec![])],
    };
    let index = DOMIndex::new(&with, "");
    assert!(index.has_doctype());
    let without = doc(vec![el("html", &[], vec![])]);
    let index2 = DOMIndex::new(&without, "");
    assert!(!index2.has_doctype());
}

#[test]
fn test_source_location() {
    let html = "<section>\n  <div id='x'></div>\n</section>";
    let root = doc(vec![el(
        "section",
        &[],
        vec![el("div", &[("id", "x")], vec![])],
    )]);
    let index = DOMIndex::new(&root, html);
    let div = index.get_node(2).unwrap();
    assert_eq!(div.source_info.line, 2);
    assert_eq!(div.source_info.column, 3);
    assert_eq!(div.source_info.source, "<div id='x'>");
    let section = index.get_node(1).unwrap();
    assert_eq!(section.source_info.line, 1);
    assert_eq!(section.source_info.column, 1);
}

#[test]
fn test_classes_from_class_attribute() {
    let root = doc(vec![el("div", &[("class", "  a   b  ")], vec![])]);
    let mut index = DOMIndex::new(&root, "");
    assert_eq!(index.query(".a").unwrap(), vec![1]);
    assert_eq!(index.query(".b").unwrap(), vec![1]);
    assert_eq!(index.query(".a.b").unwrap(), vec![1]);
    assert_eq!(index.query(".c").unwrap(), Vec::<usize>::new());
}

#[test]
fn test_get_or_parse_cached_equal() {
    let root = doc(vec![el("div", &[], vec![])]);
    let mut index = DOMIndex::new(&root, "");
    let first = index.get_or_parse("div > p.a").unwrap();
    let second = index.get_or_parse("div > p.a").unwrap();
    assert_eq!(first, second);
}

#[test]
fn test_comments_and_doctype_not_materialized() {
    let root = doc(vec![
        RawNode::Doctype,
        RawNode::Comment {
            text: "note".to_string(),
        },
        el("html", &[], vec![]),
    ]);
    let index = DOMIndex::new(&root, "");
    // Only the document root and the html element get arena slots.
    assert_eq!(index.get_nodes().len(), 2);
}

#[test]
fn test_node_utilities() {
    // 0=root 1=section 2=div 3=p 4=text
    let root = doc(vec![el(
        "section",
        &[],
        vec![el(
            "div",
            &[("class", "wrap"), ("data-k", "v")],
            vec![el("p", &[], vec![text(" inner text ")])],
        )],
    )]);
    let index = DOMIndex::new(&root, "");
    assert!(index.has_class(2, "wrap"));
    assert!(!index.has_class(2, "other"));
    assert!(!index.has_class(99, "wrap"));
    let attr = index.get_attribute(2, "data-k").expect("attribute exists");
    assert_eq!(index.resolve_symbol(attr.value).unwrap(), "v");
    assert!(index.get_attribute(2, "missing").is_none());
    assert!(index.has_parent_of_type(3, "section"));
    assert!(index.has_parent_of_type(3, "div"));
    assert!(!index.has_parent_of_type(3, "article"));
    assert_eq!(index.get_node_depth(0), 1);
    assert_eq!(index.get_node_depth(1), 2);
    assert_eq!(index.get_node_depth(4), 5);
    assert_eq!(index.get_node_text_content(1), "inner text");
}

#[test]
fn test_get_selector() {
    let root = doc(vec![
        el("div", &[("id", "main")], vec![]),
        el("span", &[("class", "x")], vec![]),
    ]);
    let index = DOMIndex::new(&root, "");
    assert_eq!(index.get_selector(1), "#main");
    assert_eq!(index.get_selector(2), "#span");
}

#[test]
fn test_alternatives_deduplicated() {
    let root = doc(vec![el("p", &[("class", "a")], vec![])]);
    let mut index = DOMIndex::new(&root, "");
    // The node matches both alternatives but appears once, in order.
    assert_eq!(index.query("p, .a").unwrap(), vec![1]);
    assert_eq!(index.query("p, .a, p.a").unwrap(), vec![1]);
}

#[test]
fn test_descendant_multi_level() {
    let root = doc(vec![el(
        "main",
        &[],
        vec![el(
            "section",
            &[],
            vec![el("div", &[], vec![el("em", &[], vec![])])],
        )],
    )]);
    let mut index = DOMIndex::new(&root, "");
    assert_eq!(index.query("main em").unwrap(), vec![4]);
    assert_eq!(index.query("main section div > em").unwrap(), vec![4]);
    assert_eq!(index.query("section > em").unwrap(), Vec::<usize>::new());
}
