use toy_web_render::dom::{elem, parse, text, AttrMap, Node, NodeType, ParseError, Parser};

fn element_parts(node: &Node) -> (&str, &AttrMap) {
    match &node.node_type {
        NodeType::Element(data) => (data.tag_name.as_str(), &data.attributes),
        _ => panic!("Expected Element"),
    }
}

#[test]
fn test_next_char() {
    let parser = Parser::new("Hello");
    assert_eq!(parser.next_char(), Some('H'));
}

#[test]
fn test_next_char_empty() {
    let parser = Parser::new("");
    assert_eq!(parser.next_char(), None);
}

#[test]
fn test_next_char_at_end() {
    let parser = Parser::with_position("Hello", 5);
    assert_eq!(parser.next_char(), None);
}

#[test]
fn test_starts_with() {
    let parser = Parser::new("<div>Hello</div>");
    assert!(parser.starts_with("<div>"));
    assert!(!parser.starts_with("<span>"));
}

#[test]
fn test_expect_failure() {
    let mut parser = Parser::new("<div>Hello</div>");
    match parser.expect("<span>") {
        Err(ParseError::UnexpectedToken { expected, offset, found }) => {
            assert_eq!(expected, "<span>");
            assert_eq!(offset, 0);
            assert_eq!(found, Some('<'));
        }
        other => panic!("Expected UnexpectedToken, got {:?}", other),
    }
    assert_eq!(parser.position(), 0);
}

#[test]
fn test_eof() {
    let parser = Parser::with_position("<div>Hello</div>", 16);
    assert!(parser.eof());
}

#[test]
fn test_consume_next_char() {
    let mut parser = Parser::new("Hello");
    assert_eq!(parser.consume_next_char(), Some('H'));
    assert_eq!(parser.position(), 1);
}

#[test]
fn test_consume_next_char_empty() {
    let mut parser = Parser::new("");
    assert_eq!(parser.consume_next_char(), None);
}

#[test]
fn test_consume_while() {
    let mut parser = Parser::new("Hello123World");

    let result = parser.consume_while(|c| c.is_alphabetic());
    assert_eq!(result, "Hello");
    assert_eq!(parser.position(), 5);

    let numbers = parser.consume_while(|c| c.is_numeric());
    assert_eq!(numbers, "123");
    assert_eq!(parser.position(), 8);
}

#[test]
fn test_consume_whitespace() {
    let mut parser = Parser::new("   Hello");
    parser.consume_whitespace();
    assert_eq!(parser.position(), 3);
    assert_eq!(parser.next_char(), Some('H'));
}

#[test]
fn test_type_checking() {
    let x = 42;
    let _: i32 = x;

    let s = String::from("hello");
    let _: String = s;
}

#[test]
fn test_parser_element_with_attributes() {
    let input = "<div class=\"container\" id=\"main\"></div>";
    let root = parse(input).unwrap();
    assert_eq!(root.children.len(), 1);
    let node = &root.children[0];

    match &node.node_type {
        NodeType::Element(data) => {
            assert_eq!(data.tag_name, "div");
            assert_eq!(data.attributes.get("class").unwrap(), "container");
            assert_eq!(data.attributes.get("id").unwrap(), "main");
        }
        _ => panic!("Expected Element"),
    }
    assert!(node.children.is_empty());
}

#[test]
fn test_parser_nested_elements() {
    let input = "<div><p>Hello</p></div>";
    let root = parse(input).unwrap();
    assert_eq!(root.children.len(), 1);
    let node = &root.children[0];

    match &node.node_type {
        NodeType::Element(data) => {
            assert_eq!(data.tag_name, "div");
            assert_eq!(node.children.len(), 1);

            match &node.children[0].node_type {
                NodeType::Element(child_data) => {
                    assert_eq!(child_data.tag_name, "p");
                }
                _ => panic!("Expected Element for child"),
            }
        }
        _ => panic!("Expected Element"),
    }
    let p = &node.children[0];
    assert_eq!(p.children.len(), 1);
    match &p.children[0].node_type {
        NodeType::Text(content) => assert_eq!(content, "Hello"),
        _ => panic!("Expected Text node"),
    }
}

#[test]
fn test_parser_comment() {
    let input = "<!-- test comment --><div></div>";
    let node = parse(input).unwrap();

    assert_eq!(node.children.len(), 2);
    match &node.children[0].node_type {
        NodeType::Comment(content) => {
            assert_eq!(content, " test comment ");
        }
        _ => panic!("Expected Comment"),
    }
    assert_eq!(element_parts(&node.children[1]).0, "div");
}

#[test]
fn test_parser_malformed_input() {
    let input = "<div><p>Hello</div>";
    match parse(input) {
        Err(ParseError::MismatchedClosingTag { opened, found, offset }) => {
            assert_eq!(opened, "p");
            assert_eq!(found, "div");
            assert_eq!(offset, 15);
        }
        other => panic!("Expected MismatchedClosingTag, got {:?}", other),
    }
}

#[test]
fn test_parse_empty() {
    let node = parse("").unwrap();
    match node.node_type {
        NodeType::Element(data) => {
            assert_eq!(data.tag_name, "root");
            assert!(data.attributes.is_empty());
        }
        _ => panic!("Expected Element"),
    }
    assert!(node.children.is_empty());
}

#[test]
fn test_parse_text() {
    let node = text("Hello".to_string());
    match node.node_type {
        NodeType::Text(content) => assert_eq!(content, "Hello"),
        _ => panic!("Expected Text node"),
    }
    assert!(node.children.is_empty());
}

#[test]
fn test_create_element() {
    let mut attrs = AttrMap::new();
    attrs.insert("class".to_string(), "test".to_string());

    let node = elem("div".to_string(), attrs, vec![text("content".to_string())]);

    match node.node_type {
        NodeType::Element(data) => {
            assert_eq!(data.tag_name, "div");
            assert_eq!(data.attributes.get("class").unwrap(), "test");
        }
        _ => panic!("Expected Element"),
    }

    assert_eq!(node.children.len(), 1);
}
