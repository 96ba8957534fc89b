use publication::extensions::Extension;
use publication::extensions::Lists;
use publication::extensions::list_item_tag;
use publication::extensions::list_tag;
use publication::Block;
use publication::Element;
use publication::ParseError;
use publication::Parser;
use publication::Scanner;

struct NoExt;

impl Extension for NoExt {
    fn parse_block(
        &self,
        _scanner: &mut Scanner,
        _exts: &[NoExt],
    ) -> Result<Option<Block>, ParseError> {
        Ok(None)
    }

    fn parse_element(
        &self,
        _scanner: &mut Scanner,
        _exts: &[NoExt],
    ) -> Result<Option<Element>, ParseError> {
        Ok(None)
    }

    fn sees_end_of_block(&self, _scanner: &Scanner) -> bool {
        false
    }
}

#[test]
fn empty_source() {
    let parser: Parser<NoExt> = Parser::new("".into());

    assert_eq!(parser.parse().unwrap(), vec![]);
}

#[test]
fn just_a_bit_of_text() {
    let parser: Parser<NoExt> = Parser::new("Hello! This is a sentence!".into());

    assert_eq!(
        parser.parse().unwrap(),
        vec![Block::Paragraph(vec![Element::Text(
            "Hello! This is a sentence!".into()
        )])]
    );
}

#[test]
fn comments_and_extraneous_whitespace_is_removed() {
    let parser: Parser<NoExt> = Parser::new(
        r#"
              # This is a comment

              This is a paragraph! # Which happens to include a comment
              And it spans multiple
              lines!
            "#
        .into(),
    );

    assert_eq!(
        parser.parse().unwrap(),
        vec![Block::Paragraph(vec![Element::Text(
            "This is a paragraph! And it spans multiple lines!".into()
        )])]
    );
}

#[test]
fn lists_extension() {
    let mut parser: Parser<Lists> = Parser::new(
        r#"
              This is a paragraph.
              ** This is a list item.

              ** This is a different list.
              ** With two items!
            "#
        .into(),
    );

    parser.add_extension(Lists::new("**"));

    assert_eq!(
        parser.parse().unwrap(),
        vec![
            Block::Paragraph(vec![Element::Text("This is a paragraph.".into())]),
            Block::ExtensionBlocks(
                list_tag(),
                vec![Block::ExtensionBlock(
                    list_item_tag(),
                    vec![Element::Text("This is a list item.".into())]
                )]
            ),
            Block::ExtensionBlocks(
                list_tag(),
                vec![
                    Block::ExtensionBlock(
                        list_item_tag(),
                        vec![Element::Text("This is a different list.".into())]
                    ),
                    Block::ExtensionBlock(
                        list_item_tag(),
                        vec![Element::Text("With two items!".into())]
                    ),
                ]
            ),
        ],
    );
}

#[test]
fn only_whitespace_and_comments_yield_no_blocks() {
    let parser: Parser<NoExt> = Parser::new("  \t\n # just a comment\n\n   # another\n".into());

    assert_eq!(parser.parse().unwrap(), vec![]);
}

#[test]
fn whitespace_runs_collapse_to_single_spaces() {
    let parser: Parser<NoExt> = Parser::new("a\t\tb   c\n d".into());

    assert_eq!(
        parser.parse().unwrap(),
        vec![Block::Paragraph(vec![Element::Text("a b c d".into())])]
    );
}

#[test]
fn comment_in_the_middle_of_a_line_is_stripped() {
    // The comment consumes through its newline, so no whitespace is
    // pending afterwards; a space before the `#` is pending as usual.
    let bare: Parser<NoExt> = Parser::new("before# comment <&>\nafter".into());
    let spaced: Parser<NoExt> = Parser::new("before # comment <&>\nafter".into());

    assert_eq!(
        bare.parse().unwrap(),
        vec![Block::Paragraph(vec![Element::Text("beforeafter".into())])]
    );
    assert_eq!(
        spaced.parse().unwrap(),
        vec![Block::Paragraph(vec![Element::Text("before after".into())])]
    );
}

#[test]
fn blank_line_separates_paragraphs() {
    let parser: Parser<NoExt> = Parser::new("first\n\nsecond".into());

    assert_eq!(
        parser.parse().unwrap(),
        vec![
            Block::Paragraph(vec![Element::Text("first".into())]),
            Block::Paragraph(vec![Element::Text("second".into())]),
        ]
    );
}

#[test]
fn paragraph_block_at_end_of_input_is_an_error() {
    let mut scanner = Scanner::new(vec![]);
    let exts: Vec<NoExt> = vec![];

    let r = publication::parse_paragraph_block(&mut scanner, &exts);

    assert_eq!(r, Err(ParseError::UnexpectedEndOfFile));
}

#[test]
fn parse_error_message_names_the_end_of_file() {
    assert_eq!(
        ParseError::UnexpectedEndOfFile.message(),
        "Unexpected end of file."
    );
}

#[test]
fn empty_bullet_list_never_matches() {
    let mut parser: Parser<Lists> = Parser::new("** not a list".into());

    parser.add_extension(Lists::new(""));

    assert_eq!(
        parser.parse().unwrap(),
        vec![Block::Paragraph(vec![Element::Text("** not a list".into())])]
    );
}

#[test]
fn scanner_clamps_reads_at_the_end() {
    let mut scanner = Scanner::new(vec!['a', 'b']);

    assert_eq!(scanner.peek(), 'a');
    assert_eq!(scanner.peek_at(5), '\0');
    assert_eq!(scanner.peek_many(10), &['a', 'b']);
    assert_eq!(scanner.take_many(10), vec!['a', 'b']);
    assert!(scanner.is_at_end());
    assert_eq!(scanner.take(), '\0');
    assert_eq!(scanner.position(), 2);
}
