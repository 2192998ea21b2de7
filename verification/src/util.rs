//! Small document utilities used by rule implementations: element
//! category tests, heading-level parsing, and locating a snippet in the
//! raw source text.

use vstd::prelude::*;
use crate::srcmap::{position_spec, SourceMap};
use crate::text::{chars_of, eq_str, find_first, find_sub};

verus! {

/// The default for a rule option that asks whether a meta tag is
/// required: absent means not required.
pub fn default_required() -> (r: bool)
    ensures
        r == false,
{
    false
}

/// Tags of void elements: elements that never have closing tags.
pub open spec fn is_void_spec(t: Seq<char>) -> bool {
    ||| t == "area"@
    ||| t == "base"@
    ||| t == "br"@
    ||| t == "col"@
    ||| t == "embed"@
    ||| t == "hr"@
    ||| t == "img"@
    ||| t == "input"@
    ||| t == "link"@
    ||| t == "meta"@
    ||| t == "param"@
    ||| t == "source"@
    ||| t == "track"@
    ||| t == "wbr"@
}

/// Whether the tag names a void element.
pub fn is_void_element(tag_name: &str) -> (r: bool)
    ensures
        r == is_void_spec(tag_name@),
{
    let c = chars_of(tag_name);
    eq_str(&c, "area") || eq_str(&c, "base") || eq_str(&c, "br") || eq_str(&c, "col") || eq_str(
        &c,
        "embed",
    ) || eq_str(&c, "hr") || eq_str(&c, "img") || eq_str(&c, "input") || eq_str(&c, "link")
        || eq_str(&c, "meta") || eq_str(&c, "param") || eq_str(&c, "source") || eq_str(&c, "track")
        || eq_str(&c, "wbr")
}

/// Tags of block-level elements.
pub open spec fn is_block_spec(t: Seq<char>) -> bool {
    ||| t == "address"@
    ||| t == "article"@
    ||| t == "aside"@
    ||| t == "blockquote"@
    ||| t == "canvas"@
    ||| t == "dd"@
    ||| t == "div"@
    ||| t == "dl"@
    ||| t == "dt"@
    ||| t == "fieldset"@
    ||| t == "figcaption"@
    ||| t == "figure"@
    ||| t == "footer"@
    ||| t == "form"@
    ||| t == "h1"@
    ||| t == "h2"@
    ||| t == "h3"@
    ||| t == "h4"@
    ||| t == "h5"@
    ||| t == "h6"@
    ||| t == "header"@
    ||| t == "hr"@
    ||| t == "li"@
    ||| t == "main"@
    ||| t == "nav"@
    ||| t == "noscript"@
    ||| t == "ol"@
    ||| t == "p"@
    ||| t == "pre"@
    ||| t == "section"@
    ||| t == "table"@
    ||| t == "tfoot"@
    ||| t == "ul"@
    ||| t == "video"@
}

/// Whether the tag names a block-level element.
pub fn is_block_element(tag_name: &str) -> (r: bool)
    ensures
        r == is_block_spec(tag_name@),
{
    let c = chars_of(tag_name);
    eq_str(&c, "address") || eq_str(&c, "article") || eq_str(&c, "aside") || eq_str(
        &c,
        "blockquote",
    ) || eq_str(&c, "canvas") || eq_str(&c, "dd") || eq_str(&c, "div") || eq_str(&c, "dl")
        || eq_str(&c, "dt") || eq_str(&c, "fieldset") || eq_str(&c, "figcaption") || eq_str(
        &c,
        "figure",
    ) || eq_str(&c, "footer") || eq_str(&c, "form") || eq_str(&c, "h1") || eq_str(&c, "h2")
        || eq_str(&c, "h3") || eq_str(&c, "h4") || eq_str(&c, "h5") || eq_str(&c, "h6") || eq_str(
        &c,
        "header",
    ) || eq_str(&c, "hr") || eq_str(&c, "li") || eq_str(&c, "main") || eq_str(&c, "nav") || eq_str(
        &c,
        "noscript",
    ) || eq_str(&c, "ol") || eq_str(&c, "p") || eq_str(&c, "pre") || eq_str(&c, "section")
        || eq_str(&c, "table") || eq_str(&c, "tfoot") || eq_str(&c, "ul") || eq_str(&c, "video")
}

/// Tags of sectioning elements.
pub open spec fn is_sectioning_spec(t: Seq<char>) -> bool {
    ||| t == "article"@
    ||| t == "section"@
    ||| t == "aside"@
    ||| t == "nav"@
}

/// Whether the tag names a sectioning element.
pub fn is_sectioning_element(tag_name: &str) -> (r: bool)
    ensures
        r == is_sectioning_spec(tag_name@),
{
    let c = chars_of(tag_name);
    eq_str(&c, "article") || eq_str(&c, "section") || eq_str(&c, "aside") || eq_str(&c, "nav")
}

/// The heading level a tag denotes: `h` followed by decimal digits
/// whose value is 1 through 6.
pub open spec fn heading_level_spec(t: Seq<char>) -> Option<int> {
    if t.len() >= 2 && t[0] == 'h' {
        match crate::parser::digits_spec(t, 1, 0) {
            Some(v) => if 1 <= v <= 6 {
                Some(v)
            } else {
                None
            },
            None => None,
        }
    } else {
        None
    }
}

/// Parses a heading level from a tag name.
pub fn parse_heading_level(tag_name: &str) -> (r: Option<i32>)
    ensures
        match r {
            Some(l) => heading_level_spec(tag_name@) == Some(l as int) && 1 <= l <= 6,
            None => heading_level_spec(tag_name@) is None,
        },
{
    let c = chars_of(tag_name);
    if c.len() < 2 || c[0] != 'h' {
        return None;
    }
    match crate::parser::digits_x(&c, 1) {
        Some(v) => {
            if 1 <= v && v <= 6 {
                Some(v as i32)
            } else {
                None
            }
        },
        None => None,
    }
}

/// The 1-based line and column of the first occurrence of
/// `node_source` in `source`, or `None` when it does not occur.
pub fn find_node_position(source: &str, node_source: &str) -> (r: Option<(usize, usize)>)
    ensures
        match r {
            Some(pos) => find_first(source@, node_source@) matches Some(o) && (
            pos.0 as int,
            pos.1 as int,
            ) == position_spec(source@, o),
            None => find_first(source@, node_source@) is None,
        },
{
    let sc = chars_of(source);
    let nc = chars_of(node_source);
    let n = sc.len();
    match find_sub(&sc, &nc) {
        Some(o) => {
            proof {
                crate::text::lemma_find_first_props(sc@, nc@);
                if nc@.len() == 0 {
                    assert(sc@.subrange(0, 0) =~= nc@);
                    assert(crate::text::matches_at(sc@, nc@, 0));
                    if o != 0 {
                        assert(!crate::text::matches_at(sc@, nc@, 0));
                        assert(false);
                    }
                } else {
                    assert((o as int) + nc@.len() <= sc@.len());
                    assert(sc@.len() <= usize::MAX);
                }
            }
            let smap = SourceMap::new(source);
            let (line, column) = smap.get_position(o);
            Some((line, column))
        },
        None => None,
    }
}

} // verus!
