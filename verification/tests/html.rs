use smarty_checker::lint::html::{
    find_case_insensitive, find_tag_end, is_self_closing_source, is_tag_name_boundary, read_tag_name,
    script_body_ranges, tag_events_from_fragment, TagEvent,
};
use smarty_checker::lint::source::{position_for_offset, range_for_offsets};
use smarty_checker::parser::{offset_range, Point, SyntaxNode};
use smarty_checker::{Position, Range};

#[test]
fn extracts_script_body_without_attributes() {
    let source = "<script>body</script>";
    let ranges = script_body_ranges(source);

    assert_eq!(ranges.len(), 1);
    assert_eq!(&source[ranges[0].start_byte..ranges[0].end_byte], "body");
}

#[test]
fn extracts_script_body_with_attributes() {
    let source = r#"<script src="{$url}" type="module">body</script>"#;
    let ranges = script_body_ranges(source);

    assert_eq!(ranges.len(), 1);
    assert_eq!(&source[ranges[0].start_byte..ranges[0].end_byte], "body");
}

#[test]
fn does_not_match_scriptish_tag_names() {
    assert!(script_body_ranges("<scriptlet>{if $x}</scriptlet>").is_empty());
}

#[test]
fn script_tags_match_in_any_case_and_in_order() {
    let source = "<SCRIPT>a</Script><p></p><script type=\"x>y\">b</SCRIPT>";
    let ranges = script_body_ranges(source);

    assert_eq!(ranges.len(), 2);
    assert_eq!(&source[ranges[0].start_byte..ranges[0].end_byte], "a");
    assert_eq!(&source[ranges[1].start_byte..ranges[1].end_byte], "b");
    assert!(ranges[0].end_byte < ranges[1].start_byte);
}

#[test]
fn unclosed_script_has_no_body() {
    assert!(script_body_ranges("<script>let x = 1;").is_empty());
    assert!(script_body_ranges("<script").is_empty());
}

#[test]
fn tag_name_boundary_bytes() {
    assert!(is_tag_name_boundary(None));
    assert!(is_tag_name_boundary(Some(b'>')));
    assert!(is_tag_name_boundary(Some(b' ')));
    assert!(!is_tag_name_boundary(Some(b'l')));
    assert!(!is_tag_name_boundary(Some(b'-')));
    assert!(!is_tag_name_boundary(Some(b'_')));
}

#[test]
fn tag_end_skips_quoted_greater_than() {
    let bytes = br#"<a title="1 > 0" data='>'>x"#;
    assert_eq!(find_tag_end(bytes, 1), Some(25));
    assert_eq!(find_tag_end(b"<a title=\"open>", 1), None);
}

#[test]
fn tag_names_are_lower_cased_after_white_space() {
    let bytes = b"<  Foo-Bar:x_1 attr>";
    let (name, start, end) = read_tag_name(bytes, 1).expect("name");
    assert_eq!(name, "foo-bar:x_1");
    assert_eq!((start, end), (3, 14));
    assert!(read_tag_name(b"< 10", 1).is_none());
    assert!(read_tag_name(b"<{$tag}>", 1).is_none());
}

#[test]
fn self_closing_ignores_trailing_white_space() {
    let bytes = "<x-widget / \u{a0}\t>".as_bytes();
    let end = bytes.len() - 1;
    assert!(is_self_closing_source(bytes, 0, end));
    assert!(!is_self_closing_source(b"<div class='a'>", 0, 14));
    assert!(!is_self_closing_source(b"<", 0, 1));
}

fn name_of(event: &TagEvent) -> &str {
    match event {
        TagEvent::Open { name, .. } => name,
        TagEvent::Close { name, .. } => name,
        TagEvent::SelfClosing { name, .. } => name,
    }
}

#[test]
fn tag_events_in_order_with_ranges() {
    let source = "<DIV class='a>b'><!-- <p> --><br/>\n</div><?php x ?><!doctype html>";
    let events = tag_events_from_fragment(source, 10, Point { row: 2, column: 4 });

    assert_eq!(events.len(), 3);
    assert!(matches!(events[0], TagEvent::Open { .. }));
    assert!(matches!(events[1], TagEvent::SelfClosing { .. }));
    assert!(matches!(events[2], TagEvent::Close { .. }));
    assert_eq!(name_of(&events[0]), "div");
    assert_eq!(name_of(&events[1]), "br");
    assert_eq!(name_of(&events[2]), "div");
    match &events[2] {
        TagEvent::Close { range, .. } => {
            assert_eq!(range.start_byte, 10 + 35);
            assert_eq!(range.end_byte, 10 + 41);
            assert_eq!(range.start, Position { row: 3, column: 0 });
            assert_eq!(range.end, Position { row: 3, column: 6 });
        }
        _ => unreachable!(),
    }
    match &events[0] {
        TagEvent::Open { range, .. } => {
            assert_eq!(range.start, Position { row: 2, column: 4 });
            assert_eq!(range.end, Position { row: 2, column: 21 });
        }
        _ => unreachable!(),
    }
}

#[test]
fn unfinished_tag_ends_the_scan() {
    let events = tag_events_from_fragment("<p></p><div class='x", 0, Point { row: 0, column: 0 });
    assert_eq!(events.len(), 2);
}

#[test]
fn less_than_in_text_is_not_a_tag() {
    let events = tag_events_from_fragment("Price < 10<div></div>", 0, Point { row: 0, column: 0 });
    assert_eq!(events.len(), 2);
}

#[test]
fn positions_count_rows_and_columns() {
    let source = "ab\ncd\nef";
    let base = Point { row: 5, column: 7 };
    assert_eq!(position_for_offset(source, base, 0), Position { row: 5, column: 7 });
    assert_eq!(position_for_offset(source, base, 2), Position { row: 5, column: 9 });
    assert_eq!(position_for_offset(source, base, 3), Position { row: 6, column: 0 });
    assert_eq!(position_for_offset(source, base, 7), Position { row: 7, column: 1 });
    assert_eq!(position_for_offset(source, base, 100), Position { row: 7, column: 2 });
}

#[test]
fn ranges_shift_bytes_and_positions() {
    let range = range_for_offsets("x\nyz", 100, Point { row: 1, column: 1 }, 1, 4);
    assert_eq!(
        range,
        Range {
            start: Position { row: 1, column: 2 },
            end: Position { row: 2, column: 2 },
            start_byte: 101,
            end_byte: 104,
        }
    );
}

#[test]
fn case_insensitive_search_finds_first_match() {
    assert_eq!(find_case_insensitive(b"ab<ScRiPt <script", 0, b"<script"), Some(2));
    assert_eq!(find_case_insensitive(b"ab<ScRiPt <script", 3, b"<script"), Some(10));
    assert_eq!(find_case_insensitive(b"<scrip", 0, b"<script"), None);
}

#[test]
fn tag_kinds_and_names_follow_the_tag_text() {
    let source = "<Ul><LI/ ></ul ><x-Widget data-a=\"/\">";
    let events = tag_events_from_fragment(source, 0, Point { row: 0, column: 0 });

    assert_eq!(events.len(), 4);
    for event in &events {
        let (range, closing) = match event {
            TagEvent::Open { range, .. } | TagEvent::SelfClosing { range, .. } => (range, false),
            TagEvent::Close { range, .. } => (range, true),
        };
        let text = &source[range.start_byte..range.end_byte];
        assert_eq!(text.starts_with("</"), closing);
        assert_eq!(
            matches!(event, TagEvent::SelfClosing { .. }),
            !closing && text[..text.len() - 1].trim_end().ends_with('/')
        );
        assert_eq!(range.start, position_for_offset(source, Point { row: 0, column: 0 }, range.start_byte));
    }
    assert_eq!(name_of(&events[0]), "ul");
    assert_eq!(name_of(&events[1]), "li");
    assert_eq!(name_of(&events[2]), "ul");
    assert_eq!(name_of(&events[3]), "x-widget");
    assert!(matches!(events[3], TagEvent::Open { .. }));
}

#[test]
fn script_bodies_hold_no_closing_script_tag_and_are_few() {
    let source = "<script>a</SCRIPT><SCRIPT type=x>b</script><script/>c</script>";
    let ranges = script_body_ranges(source);

    assert_eq!(ranges.len(), 3);
    assert!(16 * ranges.len() <= source.len());
    for range in &ranges {
        let body = source[range.start_byte..range.end_byte].to_ascii_lowercase();
        assert!(!body.contains("</script"));
        assert_eq!(source.as_bytes()[range.start_byte - 1], b'>');
        assert!(source[range.end_byte..].to_ascii_lowercase().starts_with("</script"));
    }
    assert!(16 * script_body_ranges("<script></script>").len() <= 17);
}

#[test]
fn tag_name_after_white_space_runs_over_name_bytes() {
    assert_eq!(
        read_tag_name(b" \tDiv-x:y_1>", 0),
        Some(("div-x:y_1".to_string(), 2, 11))
    );
    assert_eq!(read_tag_name(b" \t1div>", 0), None);
    assert_eq!(read_tag_name(b"  ", 0), None);
}

#[test]
fn shifted_positions_match_positions_from_the_base() {
    let fragment = "ab\ncd";
    let base = Point { row: 3, column: 5 };
    for offset in 0..=fragment.len() {
        let relative = position_for_offset(fragment, Point { row: 0, column: 0 }, offset);
        let direct = position_for_offset(fragment, base, offset);
        let at = Point { row: relative.row, column: relative.column };
        let node = SyntaxNode::new("text".to_string(), true, 0, offset, offset, at, at);
        assert_eq!(offset_range(&node, 0, base).start, direct);
    }
}
