//! Source map and utility behavior.

use html_linter::srcmap::SourceMap;
use html_linter::util::{
    default_required, find_node_position, is_block_element, is_sectioning_element,
    is_void_element, parse_heading_level,
};

#[test]
fn test_source_map_positions() {
    let map = SourceMap::new("ab\ncd\n");
    assert_eq!(map.lines, vec!["ab", "cd", ""]);
    assert_eq!(map.line_offsets, vec![0, 3, 6]);
    assert_eq!(map.get_position(0), (1, 1));
    assert_eq!(map.get_position(1), (1, 2));
    assert_eq!(map.get_position(3), (2, 1));
    assert_eq!(map.get_position(4), (2, 2));
    assert_eq!(map.get_position(6), (3, 1));
}

#[test]
fn test_source_map_empty_text() {
    let map = SourceMap::new("");
    assert_eq!(map.lines, vec![""]);
    assert_eq!(map.line_offsets, vec![0]);
    assert_eq!(map.get_position(0), (1, 1));
}

#[test]
fn test_find_node_position() {
    assert_eq!(find_node_position("xx\nyy div", "div"), Some((2, 4)));
    assert_eq!(find_node_position("hello", "h"), Some((1, 1)));
    assert_eq!(find_node_position("hello", "zz"), None);
    // The first occurrence wins when a snippet repeats.
    assert_eq!(find_node_position("<p></p><p></p>", "<p>"), Some((1, 1)));
}

#[test]
fn test_is_void_element() {
    assert!(is_void_element("br"));
    assert!(is_void_element("img"));
    assert!(!is_void_element("div"));
    assert!(!is_void_element(""));
}

#[test]
fn test_is_block_element() {
    assert!(is_block_element("div"));
    assert!(is_block_element("h3"));
    assert!(!is_block_element("span"));
}

#[test]
fn test_is_sectioning_element() {
    assert!(is_sectioning_element("nav"));
    assert!(!is_sectioning_element("div"));
}

#[test]
fn test_parse_heading_level() {
    assert_eq!(parse_heading_level("h1"), Some(1));
    assert_eq!(parse_heading_level("h6"), Some(6));
    assert_eq!(parse_heading_level("h7"), None);
    assert_eq!(parse_heading_level("h02"), Some(2));
    assert_eq!(parse_heading_level("div"), None);
    assert_eq!(parse_heading_level("h"), None);
    assert_eq!(parse_heading_level("hx"), None);
}

#[test]
fn test_default_required() {
    assert!(!default_required());
}
