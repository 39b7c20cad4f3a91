use svglex::csv::Batch;
use svglex::cursor::Cursor;
use svglex::lexer::{Token, Tokenizer};
use svglex::structure::{Attribute, Comment, Element, ElementType, ProcessingInstructions};

#[test]
fn attribute_prints_with_quotes() {
    let attribute = Attribute {
        title: "MyAttributeName".to_owned(),
        value: "MyAttributeValue".to_owned(),
    };
    assert_eq!(attribute.print(), "MyAttributeName=\"MyAttributeValue\"");
}

#[test]
fn comment_prints_inside_delimiters() {
    let comment = Comment {
        content: "hi".to_owned(),
    };
    assert_eq!(comment.print(), "<!-- hi -->");
}

#[test]
fn printed_comment_retokenizes_to_its_content() {
    let comment = Comment {
        content: "hi".to_owned(),
    };
    let tokens = Tokenizer::new(&comment.print()).tokenize().unwrap();
    assert_eq!(tokens, vec![Token::Comment("hi".to_owned())]);
}

#[test]
fn processing_instructions_print_inside_delimiters() {
    let pi = ProcessingInstructions {
        content: "xml version".to_owned(),
    };
    assert_eq!(pi.print(), "<?xml version?>");
}

#[test]
fn single_element_prints_self_closing() {
    let element = Element {
        title: "kid".to_owned(),
        element_type: ElementType::Single,
        attributes: Vec::new(),
        elements: Vec::new(),
    };
    assert_eq!(element.print(), "<kid\n/>");
}

#[test]
fn element_prints_attributes_and_children() {
    let kid = Element {
        title: "kid".to_owned(),
        element_type: ElementType::Single,
        attributes: Vec::new(),
        elements: Vec::new(),
    };
    let root = Element {
        title: "root".to_owned(),
        element_type: ElementType::Regular,
        attributes: vec![Attribute {
            title: "a".to_owned(),
            value: "v".to_owned(),
        }],
        elements: vec![kid],
    };
    assert_eq!(root.print(), "<root\n\ta=\"v\"\n>\t<kid\n/>\n>");
}

#[test]
fn batch_line_splits_key_and_values() {
    let batch = Batch::parse_line("key,one,two\n").unwrap();
    assert_eq!(batch.key, "key");
    assert_eq!(batch.values, vec!["one".to_owned(), "two".to_owned()]);
}

#[test]
fn batch_line_strips_whitespace() {
    let batch = Batch::parse_line(" k e y , v a l \n").unwrap();
    assert_eq!(batch.key, "key");
    assert_eq!(batch.values, vec!["val".to_owned()]);
}

#[test]
fn batch_line_without_key_is_none() {
    assert!(Batch::parse_line("\n").is_none());
    assert!(Batch::parse_line("   ").is_none());
    assert!(Batch::parse_line("").is_none());
}

#[test]
fn batch_line_skips_empty_leading_fields() {
    let batch = Batch::parse_line(",,a").unwrap();
    assert_eq!(batch.key, "a");
    assert_eq!(batch.values, Vec::<String>::new());
}

#[test]
fn batch_line_drops_trailing_empty_field() {
    let batch = Batch::parse_line("k,v,").unwrap();
    assert_eq!(batch.key, "k");
    assert_eq!(batch.values, vec!["v".to_owned()]);
}

#[test]
fn cursor_peeks_without_consuming() {
    let mut cursor = Cursor::new(vec!['a', 'b', 'c']);
    assert_eq!(cursor.peek(), Some('a'));
    cursor.advance_cursor();
    assert_eq!(cursor.peek(), Some('b'));
    cursor.advance_cursor();
    assert_eq!(cursor.peek(), Some('c'));
    cursor.advance_cursor();
    assert_eq!(cursor.peek(), None);
    cursor.reset_cursor();
    assert_eq!(cursor.peek(), Some('a'));
    assert_eq!(cursor.next(), Some('a'));
    assert_eq!(cursor.peek(), Some('b'));
    assert_eq!(cursor.next(), Some('b'));
    assert_eq!(cursor.next(), Some('c'));
    assert_eq!(cursor.next(), None);
    assert_eq!(cursor.peek(), None);
}

#[test]
fn cursor_next_keeps_lookahead_anchored() {
    let mut cursor = Cursor::new(vec!['x', 'y', 'z']);
    cursor.advance_cursor();
    cursor.advance_cursor();
    assert_eq!(cursor.peek(), Some('z'));
    assert_eq!(cursor.next(), Some('x'));
    assert_eq!(cursor.peek(), Some('z'));
    assert_eq!(cursor.next(), Some('y'));
    assert_eq!(cursor.peek(), Some('z'));
}
