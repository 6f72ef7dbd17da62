use smarty_checker::lint::smarty::{
    direct_fragment_bytes, direct_html_fragment, is_control_flow, is_control_flow_kind, is_control_flow_parent,
    is_smarty_construct,
};
use smarty_checker::parser::{
    offset_range, parent_index, parse_html, range_from_node, tree_from_parse, ParseSetupError,
    Point, SyntaxNode, SyntaxTree,
};
use smarty_checker::{Position, Range};

fn node(kind: &str, depth: usize, start: usize, end: usize) -> SyntaxNode {
    SyntaxNode::new(
        kind.to_string(),
        true,
        depth,
        start,
        end,
        Point::new(0, start),
        Point::new(0, end),
    )
}

#[test]
fn parses_html_into_pre_order_nodes() {
    let tree = parse_html("<p>Hi</p>").expect("html parses");

    assert_eq!(tree.nodes[0].kind, "document");
    assert_eq!(tree.nodes[0].depth, 0);
    assert_eq!(tree.nodes[0].start_byte, 0);
    assert_eq!(tree.nodes[0].end_byte, 9);
    assert!(tree.nodes.iter().any(|n| n.kind == "element" && n.depth == 1));
    let tag_name = tree
        .nodes
        .iter()
        .find(|n| n.kind == "tag_name")
        .expect("a tag name");
    assert_eq!((tag_name.start_byte, tag_name.end_byte), (1, 2));
    assert!(tag_name.is_named);
    assert!(tree.nodes.iter().any(|n| !n.is_named));
}

#[test]
fn html_positions_follow_lines() {
    let tree = parse_html("<div>\n  <br>\n</div>").expect("html parses");
    let br = tree
        .nodes
        .iter()
        .find(|n| n.kind == "start_tag" && n.start_position.row == 1)
        .expect("the br tag");
    assert_eq!(br.start_position, Point { row: 1, column: 2 });
    assert_eq!(br.start_byte, 8);
}

#[test]
fn control_flow_kinds() {
    for kind in [
        "if_block",
        "elseif_block",
        "else_block",
        "foreach_block",
        "foreachelse_block",
        "for_block",
        "forelse_block",
        "section_block",
        "sectionelse_block",
        "while_block",
        "block",
    ] {
        assert!(is_control_flow_kind(kind), "{kind}");
    }
    assert!(!is_control_flow_kind("tag"));
    assert!(!is_control_flow_kind("body"));
    assert!(!is_control_flow_kind("if"));
}

#[test]
fn parents_and_constructs() {
    let tree = SyntaxTree {
        nodes: vec![
            node("template", 0, 0, 20),
            node("if_block", 1, 0, 20),
            node("body", 2, 5, 15),
            node("tag", 3, 6, 10),
            node("literal_block", 1, 20, 20),
        ],
    };
    assert_eq!(parent_index(&tree, 0), None);
    assert_eq!(parent_index(&tree, 2), Some(1));
    assert_eq!(parent_index(&tree, 3), Some(2));
    assert_eq!(parent_index(&tree, 4), Some(0));
    assert!(is_control_flow_parent(&tree, 2));
    assert!(!is_control_flow_parent(&tree, 3));
    assert!(is_control_flow(&tree, 1));
    assert!(!is_control_flow(&tree, 3));
    assert!(is_smarty_construct(&tree, 3));
    assert!(is_smarty_construct(&tree, 4));
    assert!(!is_smarty_construct(&tree, 2));
}

#[test]
fn direct_fragment_blanks_control_flow_children() {
    let source = b"{if $x}<a>{if $y}b{/if}</a>{/if}";
    let tree = SyntaxTree {
        nodes: vec![
            node("template", 0, 0, 32),
            node("if_block", 1, 0, 32),
            node("body", 2, 7, 27),
            node("if_block", 3, 10, 23),
            node("body", 4, 17, 18),
        ],
    };
    let fragment = direct_fragment_bytes(source, &tree, 2);
    assert_eq!(fragment, b"<a>             </a>".to_vec());
    let inner = direct_fragment_bytes(source, &tree, 4);
    assert_eq!(inner, b"b".to_vec());
}

#[test]
fn node_ranges() {
    let n = SyntaxNode::new(
        "tag".to_string(),
        true,
        1,
        3,
        12,
        Point::new(0, 3),
        Point::new(2, 1),
    );
    assert_eq!(
        range_from_node(&n),
        Range {
            start: Position { row: 0, column: 3 },
            end: Position { row: 2, column: 1 },
            start_byte: 3,
            end_byte: 12,
        }
    );
    assert_eq!(
        offset_range(&n, 100, Point::new(4, 10)),
        Range {
            start: Position { row: 4, column: 13 },
            end: Position { row: 6, column: 1 },
            start_byte: 103,
            end_byte: 112,
        }
    );
}

#[test]
fn direct_html_fragment_keeps_text_and_offsets() {
    let source = "{if $x}é<a>{if $y}ü{/if}</a>{/if}";
    let body_start = "{if $x}".len();
    let inner_start = source.find("{if $y}").unwrap();
    let inner_end = source.find("</a>").unwrap();
    let body_end = source.rfind("{/if}").unwrap();
    let tree = SyntaxTree {
        nodes: vec![
            node("template", 0, 0, source.len()),
            node("if_block", 1, 0, source.len()),
            node("body", 2, body_start, body_end),
            node("if_block", 3, inner_start, inner_end),
            node("body", 4, inner_start + 7, inner_start + 7 + "ü".len()),
        ],
    };
    let fragment = direct_html_fragment(source, &tree, 2);
    let expected = format!("é<a>{}</a>", " ".repeat(inner_end - inner_start));
    assert_eq!(fragment, expected);
    assert_eq!(fragment.len(), body_end - body_start);
    assert_eq!(direct_html_fragment(source, &tree, 4), "ü");
}

#[test]
fn parse_outcomes_map_to_errors() {
    let tree = SyntaxTree { nodes: vec![node("document", 0, 0, 0)] };
    assert_eq!(tree_from_parse(Ok(Some(tree.clone()))).expect("tree"), tree);
    match tree_from_parse(Ok(None)) {
        Err(ParseSetupError::ParseReturnedNone(language)) => assert_eq!(language, "HTML"),
        other => panic!("unexpected {other:?}"),
    }
}

#[test]
fn html_parse_succeeds_on_any_text() {
    for source in ["", "<<<", "</p>text<div", "\u{e9}<b>"] {
        let tree = parse_html(source).expect("the HTML grammar always gives a tree");
        assert_eq!(tree.nodes[0].depth, 0);
        assert_eq!(tree.nodes[0].end_byte, source.len());
    }
}
