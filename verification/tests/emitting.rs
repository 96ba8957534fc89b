use publication::extensions::Bold;
use publication::extensions::Extension;
use publication::extensions::Italics;
use publication::extensions::Lists;
use publication::HtmlEmitter;
use publication::Parser;
use publication::TextEmitter;
use publication::Block;
use publication::Element;
use publication::ParseError;
use publication::Scanner;

struct NoExt;

impl Extension for NoExt {
    fn parse_block(
        &self,
        _scanner: &mut Scanner,
        _exts: &[NoExt],
    ) -> Result<Option<Block>, ParseError> {
        Ok(None)
    }

    fn parse_element(
        &self,
        _scanner: &mut Scanner,
        _exts: &[NoExt],
    ) -> Result<Option<Element>, ParseError> {
        Ok(None)
    }

    fn sees_end_of_block(&self, _scanner: &Scanner) -> bool {
        false
    }
}

#[test]
fn html_emitter_escapes() {
    let parser: Parser<NoExt> = Parser::new(
        r#"
              This isn't Markdown!
            "#
        .into(),
    );

    assert_eq!(
        parser.emit_with(&HtmlEmitter::new()).unwrap(),
        "<p>\n  This isn&apos;t Markdown!\n</p>\n"
    );
}

#[test]
fn bold_extension() {
    let mut parser: Parser<Bold> = Parser::new(
        r#"
              This *isn't* Markdown!
            "#
        .into(),
    );

    parser.add_extension(Bold);

    assert_eq!(
        parser.emit_with(&HtmlEmitter::new()).unwrap(),
        "<p>\n  This <strong>isn&apos;t</strong> Markdown!\n</p>\n"
    );
}

#[test]
fn italics_extension() {
    let mut parser: Parser<Italics> = Parser::new(
        r#"
              This /isn't/ Markdown!
            "#
        .into(),
    );

    parser.add_extension(Italics);

    assert_eq!(
        parser.emit_with(&HtmlEmitter::new()).unwrap(),
        "<p>\n  This <em>isn&apos;t</em> Markdown!\n</p>\n"
    );
}

#[test]
fn empty_input_emits_empty_on_both_backends() {
    let html: Parser<NoExt> = Parser::new("".into());
    let text: Parser<NoExt> = Parser::new("".into());

    assert_eq!(html.emit_with(&HtmlEmitter::new()).unwrap(), "");
    assert_eq!(text.emit_with(&TextEmitter::new()).unwrap(), "");
}

#[test]
fn every_special_character_becomes_an_entity() {
    let parser: Parser<NoExt> = Parser::new("\"<>&'".into());

    assert_eq!(
        parser.emit_with(&HtmlEmitter::new()).unwrap(),
        "<p>\n  &quot;&lt;&gt;&amp;&apos;\n</p>\n"
    );
}

#[test]
fn text_emitter_joins_paragraphs_with_newlines() {
    let parser: Parser<NoExt> = Parser::new("first paragraph\n\nsecond one".into());

    assert_eq!(
        parser.emit_with(&TextEmitter::new()).unwrap(),
        "first paragraph\n\nsecond one\n"
    );
}

#[test]
fn text_emitter_unwraps_extension_elements() {
    let mut parser: Parser<Bold> = Parser::new("both *kinds* of text".into());

    parser.add_extension(Bold);

    assert_eq!(
        parser.emit_with(&TextEmitter::new()).unwrap(),
        "both kinds of text\n"
    );
}

#[test]
fn text_emitter_omits_non_paragraph_blocks() {
    let mut parser: Parser<Lists> = Parser::new("words first\n** item one\n".into());

    parser.add_extension(Lists::new("**"));

    assert_eq!(
        parser.emit_with(&TextEmitter::new()).unwrap(),
        "words first\n"
    );
}

#[test]
fn lists_render_as_html_lists() {
    let mut parser: Parser<Lists> = Parser::new("** one\n** two".into());

    parser.add_extension(Lists::new("**"));

    assert_eq!(
        parser.emit_with(&HtmlEmitter::new()).unwrap(),
        "<ul>\n  <li>\n    one\n  </li>\n  <li>\n    two\n  </li>\n</ul>\n"
    );
}
