use svglex::lexer::{Token, TokenError, Tokenizer};

fn tokenize(input: &str) -> Result<Vec<Token>, TokenError> {
    Tokenizer::new(input).tokenize()
}

#[test]
fn tag_with_attribute() {
    let tokens = tokenize("<a b=\"c\"/>").unwrap();
    assert_eq!(
        tokens,
        vec![
            Token::TagStartOpen,
            Token::Identifier("a".to_owned()),
            Token::Identifier("b".to_owned()),
            Token::Equals,
            Token::Value("c".to_owned()),
            Token::TagCloseSingle,
        ]
    );
}

#[test]
fn comment_tokens() {
    let tokens = tokenize("<!-- hi -->").unwrap();
    assert_eq!(tokens, vec![Token::Comment("hi".to_owned())]);
}

#[test]
fn processing_instruction_tokens() {
    let tokens = tokenize("<? pi content ?>").unwrap();
    assert_eq!(
        tokens,
        vec![Token::ProcessingInstruction("pi content".to_owned())]
    );
}

#[test]
fn unterminated_comment_fails() {
    let result = tokenize("<a><!--oops");
    assert_eq!(
        result,
        Err(TokenError::LexingError(
            "Expected comment after exclamation mark.".to_owned()
        ))
    );
}

#[test]
fn unquoted_attribute_value_lexes_as_identifier() {
    // An unquoted value never reaches a failing branch: `c` joins the
    // identifier buffer and `/>` closes the tag.
    let tokens = tokenize("<a b=c/>").unwrap();
    assert_eq!(
        tokens,
        vec![
            Token::TagStartOpen,
            Token::Identifier("a".to_owned()),
            Token::Identifier("b".to_owned()),
            Token::Equals,
            Token::Identifier("c".to_owned()),
            Token::TagCloseSingle,
        ]
    );
}

#[test]
fn whitespace_only_lines() {
    let tokens = tokenize("  \n\t \n   ").unwrap();
    assert_eq!(tokens, vec![Token::Linebreak, Token::Linebreak]);
}

#[test]
fn balanced_tags() {
    let tokens = tokenize("<a><b/><b/></a>").unwrap();
    assert_eq!(
        tokens,
        vec![
            Token::TagStartOpen,
            Token::Identifier("a".to_owned()),
            Token::TagCloseMany,
            Token::TagStartOpen,
            Token::Identifier("b".to_owned()),
            Token::TagCloseSingle,
            Token::TagStartOpen,
            Token::Identifier("b".to_owned()),
            Token::TagCloseSingle,
            Token::TagEndOpen,
            Token::Identifier("a".to_owned()),
            Token::TagCloseMany,
        ]
    );
}

#[test]
fn comment_retokenizes_to_itself() {
    let first = tokenize("<!-- some words -->").unwrap();
    assert_eq!(first, vec![Token::Comment("some words".to_owned())]);
    let rewrapped = format!("<!-- {} -->", "some words");
    let second = tokenize(&rewrapped).unwrap();
    assert_eq!(first, second);
}

#[test]
fn processing_instruction_retokenizes_to_itself() {
    let first = tokenize("<? target data ?>").unwrap();
    assert_eq!(
        first,
        vec![Token::ProcessingInstruction("target data".to_owned())]
    );
    let rewrapped = format!("<? {} ?>", "target data");
    let second = tokenize(&rewrapped).unwrap();
    assert_eq!(first, second);
}

#[test]
fn value_retokenizes_to_itself() {
    let first = tokenize("\"c d\"").unwrap();
    assert_eq!(first, vec![Token::Value("c d".to_owned())]);
    let second = tokenize("\"c d\"").unwrap();
    assert_eq!(first, second);
}

#[test]
fn mismatched_quotes_still_close_a_value() {
    let tokens = tokenize("'c\"").unwrap();
    assert_eq!(tokens, vec![Token::Value("c".to_owned())]);
}

#[test]
fn pending_text_is_dropped_at_end_of_input() {
    let tokens = tokenize("ab").unwrap();
    assert_eq!(tokens, vec![]);
}

#[test]
fn tag_open_does_not_flush_pending_text() {
    let tokens = tokenize("ab<c>").unwrap();
    assert_eq!(
        tokens,
        vec![
            Token::TagStartOpen,
            Token::Identifier("abc".to_owned()),
            Token::TagCloseMany,
        ]
    );
}

#[test]
fn linebreak_swallows_following_carriage_return() {
    let tokens = tokenize("a\n\rb").unwrap();
    assert_eq!(
        tokens,
        vec![Token::Identifier("a".to_owned()), Token::Linebreak]
    );
}

#[test]
fn unknown_symbol_after_open_angle_fails() {
    let result = tokenize("<#");
    assert_eq!(
        result,
        Err(TokenError::LexingError(
            "Unknown symbol '<' after '<'.".to_owned()
        ))
    );
}

#[test]
fn open_angle_at_end_of_input_fails() {
    let result = tokenize("<a><");
    assert_eq!(
        result,
        Err(TokenError::LexingError(
            "Unknown symbol '<' after '<'.".to_owned()
        ))
    );
}

#[test]
fn slash_without_close_fails() {
    let result = tokenize("/a");
    assert_eq!(
        result,
        Err(TokenError::LexingError(
            "Unknown symbol '/' after '/'".to_owned()
        ))
    );
}

#[test]
fn unknown_symbol_fails_and_names_the_character() {
    let result = tokenize("#");
    assert_eq!(
        result,
        Err(TokenError::LexingError("Unknown symbol '#'".to_owned()))
    );
}

#[test]
fn error_discards_earlier_tokens() {
    let result = tokenize("<a b=\"c\">#");
    assert!(matches!(result, Err(TokenError::LexingError(_))));
}

#[test]
fn empty_input_gives_no_tokens() {
    let tokens = tokenize("").unwrap();
    assert_eq!(tokens, vec![]);
}

#[test]
fn tokens_print_their_display_text() {
    assert_eq!(Token::TagStartOpen.print(), "<");
    assert_eq!(Token::TagEndOpen.print(), "</");
    assert_eq!(Token::TagCloseMany.print(), ">");
    assert_eq!(Token::TagCloseSingle.print(), "/>");
    assert_eq!(Token::Comment("hi".to_owned()).print(), "Comment: hi");
    assert_eq!(Token::ProcessingInstruction("p".to_owned()).print(), "PI: p");
    assert_eq!(Token::Identifier("a".to_owned()).print(), "Identifier: a");
    assert_eq!(Token::Value("v".to_owned()).print(), "Value: v");
    assert_eq!(Token::Equals.print(), "=");
    assert_eq!(Token::Linebreak.print(), "");
}

#[test]
fn error_carries_its_message() {
    let error = tokenize("#").unwrap_err();
    assert_eq!(error.message(), "Unknown symbol '#'");
}

#[test]
fn comment_absorbs_pending_text() {
    let tokens = tokenize("ab<!-- x -->").unwrap();
    assert_eq!(tokens, vec![Token::Comment("abx".to_owned())]);
}
