use toy_web_render::dom::{parse, AttrMap, Node, NodeType, ParseError, Parser};

fn tag_of(node: &Node) -> &str {
    match &node.node_type {
        NodeType::Element(data) => data.tag_name.as_str(),
        _ => panic!("Expected Element"),
    }
}

fn attrs_of(node: &Node) -> &AttrMap {
    match &node.node_type {
        NodeType::Element(data) => &data.attributes,
        _ => panic!("Expected Element"),
    }
}

fn text_of(node: &Node) -> &str {
    match &node.node_type {
        NodeType::Text(t) => t.as_str(),
        _ => panic!("Expected Text"),
    }
}

#[test]
fn root_is_synthetic_element() {
    let root = parse("<a></a><b></b>").unwrap();
    assert_eq!(tag_of(&root), "root");
    assert!(attrs_of(&root).is_empty());
    assert_eq!(root.children.len(), 2);
    assert_eq!(tag_of(&root.children[0]), "a");
    assert_eq!(tag_of(&root.children[1]), "b");
}

#[test]
fn element_attribute_and_children() {
    let root = parse("<tag attr=\"v\">x<i></i></tag>").unwrap();
    let tag = &root.children[0];
    assert_eq!(tag_of(tag), "tag");
    assert_eq!(attrs_of(tag).get("attr").unwrap(), "v");
    let inner = parse("x<i></i>").unwrap();
    assert_eq!(tag.children.len(), inner.children.len());
    assert_eq!(text_of(&tag.children[0]), text_of(&inner.children[0]));
    assert_eq!(tag_of(&tag.children[1]), tag_of(&inner.children[1]));
}

#[test]
fn parsing_twice_gives_same_tree() {
    let input = "<div a='1'><!--c-->t<p></p></div>";
    let first = format!("{:?}", parse(input));
    let second = format!("{:?}", parse(input));
    assert_eq!(first, second);
}

#[test]
fn duplicate_attribute_last_wins() {
    let root = parse("<div a=\"1\" b=\"2\" a=\"3\"></div>").unwrap();
    let attrs = attrs_of(&root.children[0]);
    assert_eq!(attrs.get("a").unwrap(), "3");
    assert_eq!(attrs.get("b").unwrap(), "2");
    assert!(attrs.get("c").is_none());
}

#[test]
fn comment_keeps_whitespace() {
    let root = parse("<!--  a \n b  -->").unwrap();
    assert_eq!(root.children.len(), 1);
    match &root.children[0].node_type {
        NodeType::Comment(c) => assert_eq!(c, "  a \n b  "),
        _ => panic!("Expected Comment"),
    }
}

#[test]
fn comment_then_element() {
    let root = parse("<!-- c --><div></div>").unwrap();
    assert_eq!(root.children.len(), 2);
    match &root.children[0].node_type {
        NodeType::Comment(c) => assert_eq!(c, " c "),
        _ => panic!("Expected Comment"),
    }
    assert_eq!(tag_of(&root.children[1]), "div");
    assert!(root.children[1].children.is_empty());
}

#[test]
fn comment_inside_element() {
    let root = parse("<ul><!--x--><li>1</li></ul>").unwrap();
    let ul = &root.children[0];
    assert_eq!(ul.children.len(), 2);
    assert_eq!(tag_of(&ul.children[1]), "li");
    assert_eq!(text_of(&ul.children[1].children[0]), "1");
}

#[test]
fn single_quoted_value_may_hold_double_quote() {
    let root = parse("<a t='say \"hi\"'></a>").unwrap();
    assert_eq!(attrs_of(&root.children[0]).get("t").unwrap(), "say \"hi\"");
}

#[test]
fn whitespace_around_attributes() {
    let root = parse("<a x=\"1\"\t\n y='2' ></a>").unwrap();
    let attrs = attrs_of(&root.children[0]);
    assert_eq!(attrs.get("x").unwrap(), "1");
    assert_eq!(attrs.get("y").unwrap(), "2");
}

#[test]
fn top_level_text_only() {
    let root = parse("just text").unwrap();
    assert_eq!(root.children.len(), 1);
    assert_eq!(text_of(&root.children[0]), "just text");
}

#[test]
fn multibyte_text_and_offsets() {
    let root = parse("<p>héllo wörld</p>").unwrap();
    assert_eq!(text_of(&root.children[0].children[0]), "héllo wörld");
    match parse("<p>é</q>") {
        Err(ParseError::MismatchedClosingTag { opened, found, offset }) => {
            assert_eq!(opened, "p");
            assert_eq!(found, "q");
            assert_eq!(offset, 6);
        }
        other => panic!("Expected MismatchedClosingTag, got {:?}", other),
    }
}

#[test]
fn missing_close_bracket_is_unexpected_token() {
    match parse("<div") {
        Err(ParseError::UnexpectedToken { expected, offset, found }) => {
            assert_eq!(expected, ">");
            assert_eq!(offset, 4);
            assert_eq!(found, None);
        }
        other => panic!("Expected UnexpectedToken, got {:?}", other),
    }
}

#[test]
fn unclosed_element_is_unexpected_token() {
    match parse("<div>text") {
        Err(ParseError::UnexpectedToken { expected, offset, found }) => {
            assert_eq!(expected, "</");
            assert_eq!(offset, 9);
            assert_eq!(found, None);
        }
        other => panic!("Expected UnexpectedToken, got {:?}", other),
    }
}

#[test]
fn empty_tag_name_is_malformed() {
    match parse("<>") {
        Err(ParseError::MalformedTag { offset }) => assert_eq!(offset, 1),
        other => panic!("Expected MalformedTag, got {:?}", other),
    }
    match parse("</div>") {
        Err(ParseError::MalformedTag { offset }) => assert_eq!(offset, 1),
        other => panic!("Expected MalformedTag, got {:?}", other),
    }
}

#[test]
fn unterminated_comment() {
    match parse("<a></a><!-- open") {
        Err(ParseError::UnterminatedComment { offset }) => assert_eq!(offset, 7),
        other => panic!("Expected UnterminatedComment, got {:?}", other),
    }
}

#[test]
fn unterminated_attribute() {
    match parse("<a x=\"1></a>") {
        Err(ParseError::UnterminatedAttribute { offset }) => assert_eq!(offset, 5),
        other => panic!("Expected UnterminatedAttribute, got {:?}", other),
    }
}

#[test]
fn unquoted_attribute_is_invalid() {
    match parse("<a x=1></a>") {
        Err(ParseError::InvalidAttributeSyntax { offset }) => assert_eq!(offset, 5),
        other => panic!("Expected InvalidAttributeSyntax, got {:?}", other),
    }
}

#[test]
fn parse_name_stops_at_non_alphanumeric() {
    let mut parser = Parser::new("abc9Z-rest");
    assert_eq!(parser.parse_name(), "abc9Z");
    assert_eq!(parser.position(), 5);
    assert_eq!(parser.next_char(), Some('-'));
}

#[test]
fn unicode_whitespace_is_skipped() {
    let mut parser = Parser::new("\u{2003}\u{a0} x");
    parser.consume_whitespace();
    assert_eq!(parser.position(), 3);
}

#[test]
fn expect_moves_past_token() {
    let mut parser = Parser::new("<div>");
    assert!(parser.expect("<div").is_ok());
    assert_eq!(parser.position(), 4);
    assert_eq!(parser.next_char(), Some('>'));
}

#[test]
fn attr_map_insert_replaces() {
    let mut m = AttrMap::new();
    assert!(m.is_empty());
    m.insert("k".to_string(), "1".to_string());
    m.insert("k".to_string(), "2".to_string());
    assert_eq!(m.get("k").unwrap(), "2");
    assert!(!m.is_empty());
}
