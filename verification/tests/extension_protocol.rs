use publication::extensions::bold_tag;
use publication::extensions::parse_emphasis_element;
use publication::extensions::parse_list_rule;
use publication::extensions::Extension;
use publication::Block;
use publication::Element;
use publication::ExtensionTag;
use publication::HtmlEmitter;
use publication::ParseError;
use publication::Parser;
use publication::Scanner;

fn my_tag() -> ExtensionTag {
    ExtensionTag("MY_TAG")
}

struct MyExtension;

impl Extension for MyExtension {
    fn parse_block(
        &self,
        _scanner: &mut Scanner,
        _exts: &[MyExtension],
    ) -> Result<Option<Block>, ParseError> {
        Ok(None)
    }

    fn sees_end_of_block(&self, _scanner: &Scanner) -> bool {
        false
    }

    fn parse_element(
        &self,
        scanner: &mut Scanner,
        _exts: &[MyExtension],
    ) -> Result<Option<Element>, ParseError> {
        let sign = ['$', '$'];
        if scanner.peek_many(2) != &sign {
            return Ok(None);
        }
        scanner.take_many(2);
        let mut content = String::new();
        while !scanner.is_at_end() && scanner.peek_many(2) != &sign {
            content.push(scanner.take());
        }
        scanner.take_many(2);
        Ok(Some(Element::ExtensionElement(
            my_tag(),
            Box::new(Element::Text(content)),
        )))
    }
}

#[test]
fn fully_external_extension() {
    let mut parser: Parser<MyExtension> = Parser::new("This is $$some syntax$$".into());
    parser.add_extension(MyExtension);

    let mut emitter = HtmlEmitter::new();
    emitter.tagged_element(my_tag(), "span".into(), vec![]);

    let output = parser.emit_with(&emitter).unwrap();

    assert_eq!(output, "<p>\n  This is <span>some syntax</span>\n</p>\n");
}

enum TwoExt {
    Declining,
    Dollar,
}

impl Extension for TwoExt {
    fn parse_block(
        &self,
        _scanner: &mut Scanner,
        _exts: &[TwoExt],
    ) -> Result<Option<Block>, ParseError> {
        Ok(None)
    }

    fn sees_end_of_block(&self, _scanner: &Scanner) -> bool {
        false
    }

    fn parse_element(
        &self,
        scanner: &mut Scanner,
        _exts: &[TwoExt],
    ) -> Result<Option<Element>, ParseError> {
        match self {
            // Consumes some input before declaring "no match": the
            // engine must roll the cursor back before the next trial.
            TwoExt::Declining => {
                scanner.take();
                scanner.take();
                Ok(None)
            }
            TwoExt::Dollar => MyExtension.parse_element(scanner, &[]),
        }
    }
}

#[test]
fn rollback_after_declined_trial() {
    let mut parser: Parser<TwoExt> = Parser::new("$$x$$ done".into());
    parser.add_extension(TwoExt::Declining);
    parser.add_extension(TwoExt::Dollar);

    assert_eq!(
        parser.parse().unwrap(),
        vec![Block::Paragraph(vec![
            Element::ExtensionElement(my_tag(), Box::new(Element::Text("x".into()))),
            Element::Text(" done".into()),
        ])]
    );
}

fn box_tag() -> ExtensionTag {
    ExtensionTag("MY_BOX")
}

fn group_tag() -> ExtensionTag {
    ExtensionTag("MY_GROUP")
}

struct Boxed;

impl Extension for Boxed {
    fn parse_element(
        &self,
        _scanner: &mut Scanner,
        _exts: &[Boxed],
    ) -> Result<Option<Element>, ParseError> {
        Ok(None)
    }

    fn sees_end_of_block(&self, _scanner: &Scanner) -> bool {
        false
    }

    fn parse_block(
        &self,
        scanner: &mut Scanner,
        exts: &[Boxed],
    ) -> Result<Option<Block>, ParseError> {
        if scanner.peek() != '>' {
            return Ok(None);
        }
        scanner.take();
        scanner.move_past_whitespace();
        let elements = publication::parse_elements(scanner, exts)?;
        Ok(Some(Block::ExtensionBlock(box_tag(), elements)))
    }
}

#[test]
fn unregistered_block_tag_falls_back_to_generic_container() {
    let mut parser: Parser<Boxed> = Parser::new("> quoted words".into());
    parser.add_extension(Boxed);

    assert_eq!(
        parser.emit_with(&HtmlEmitter::new()).unwrap(),
        "<div data-publ-tag=\"MY_BOX\">\n  quoted words\n</div>\n"
    );
}

#[test]
fn registered_block_tag_uses_its_markup_rule() {
    let mut parser: Parser<Boxed> = Parser::new("> quoted words".into());
    parser.add_extension(Boxed);

    let mut emitter = HtmlEmitter::new();
    emitter.tagged_block(
        box_tag(),
        "blockquote".into(),
        vec![("class".into(), "fancy".into())],
    );

    assert_eq!(
        parser.emit_with(&emitter).unwrap(),
        "<blockquote class=\"fancy\">quoted words</blockquote>"
    );
}

struct Grouped;

impl Extension for Grouped {
    fn parse_element(
        &self,
        _scanner: &mut Scanner,
        _exts: &[Grouped],
    ) -> Result<Option<Element>, ParseError> {
        Ok(None)
    }

    fn sees_end_of_block(&self, _scanner: &Scanner) -> bool {
        false
    }

    fn parse_block(
        &self,
        scanner: &mut Scanner,
        exts: &[Grouped],
    ) -> Result<Option<Block>, ParseError> {
        if scanner.peek() != '>' {
            return Ok(None);
        }
        scanner.take();
        scanner.move_past_whitespace();
        let elements = publication::parse_elements(scanner, exts)?;
        Ok(Some(Block::ExtensionBlocks(
            group_tag(),
            vec![Block::ExtensionBlock(box_tag(), elements)],
        )))
    }
}

#[test]
fn unregistered_group_tag_renders_bare_contents() {
    let mut parser: Parser<Grouped> = Parser::new("> inside".into());
    parser.add_extension(Grouped);

    assert_eq!(
        parser.emit_with(&HtmlEmitter::new()).unwrap(),
        "<div data-publ-tag=\"MY_BOX\">\n  inside\n</div>\n"
    );
}

#[test]
fn registered_group_tag_wraps_its_contents() {
    let mut parser: Parser<Grouped> = Parser::new("> inside".into());
    parser.add_extension(Grouped);

    let mut emitter = HtmlEmitter::new();
    emitter.tagged_blocks(group_tag(), "section".into(), vec![]);
    emitter.tagged_block(box_tag(), "article".into(), vec![]);

    assert_eq!(
        parser.emit_with(&emitter).unwrap(),
        "<section><article>inside</article></section>"
    );
}

struct Failing;

impl Extension for Failing {
    fn parse_element(
        &self,
        _scanner: &mut Scanner,
        _exts: &[Failing],
    ) -> Result<Option<Element>, ParseError> {
        Ok(None)
    }

    fn sees_end_of_block(&self, _scanner: &Scanner) -> bool {
        false
    }

    fn parse_block(
        &self,
        _scanner: &mut Scanner,
        _exts: &[Failing],
    ) -> Result<Option<Block>, ParseError> {
        Err(ParseError::UnexpectedEndOfFile)
    }
}

#[test]
fn an_extension_error_unwinds_the_whole_parse() {
    let mut parser: Parser<Failing> = Parser::new("anything".into());
    parser.add_extension(Failing);

    assert_eq!(parser.parse(), Err(ParseError::UnexpectedEndOfFile));
}

enum Mixed {
    Bold(publication::extensions::Bold),
    Lists(publication::extensions::Lists),
}

impl Extension for Mixed {
    fn parse_block(
        &self,
        scanner: &mut Scanner,
        exts: &[Mixed],
    ) -> Result<Option<Block>, ParseError> {
        match self {
            Mixed::Bold(_) => Ok(None),
            Mixed::Lists(l) => parse_list_rule(l, scanner, exts),
        }
    }

    fn parse_element(
        &self,
        scanner: &mut Scanner,
        exts: &[Mixed],
    ) -> Result<Option<Element>, ParseError> {
        match self {
            Mixed::Bold(_) => parse_emphasis_element('*', bold_tag(), scanner, exts),
            Mixed::Lists(_) => Ok(None),
        }
    }

    fn sees_end_of_block(&self, scanner: &Scanner) -> bool {
        match self {
            Mixed::Bold(_) => false,
            Mixed::Lists(l) => l.sees_bullet(scanner),
        }
    }
}

#[test]
fn mixed_extensions_share_one_parser() {
    let mut parser: Parser<Mixed> = Parser::new("a *b*\n** item".into());
    parser.add_extension(Mixed::Bold(publication::extensions::Bold));
    parser.add_extension(Mixed::Lists(publication::extensions::Lists::new("**")));

    assert_eq!(
        parser.emit_with(&HtmlEmitter::new()).unwrap(),
        "<p>\n  a <strong>b</strong>\n</p>\n<ul>\n  <li>\n    item\n  </li>\n</ul>\n"
    );
}

#[test]
fn extensions_apply_inside_list_items() {
    let mut parser: Parser<Mixed> = Parser::new("** a *b* c".into());
    parser.add_extension(Mixed::Bold(publication::extensions::Bold));
    parser.add_extension(Mixed::Lists(publication::extensions::Lists::new("**")));

    assert_eq!(
        parser.emit_with(&HtmlEmitter::new()).unwrap(),
        "<ul>\n  <li>\n    a <strong>b</strong> c\n  </li>\n</ul>\n"
    );
}

#[test]
fn unclosed_emphasis_stops_at_a_bullet_vote() {
    let mut parser: Parser<Mixed> = Parser::new("*run\n** item".into());
    parser.add_extension(Mixed::Bold(publication::extensions::Bold));
    parser.add_extension(Mixed::Lists(publication::extensions::Lists::new("**")));

    assert_eq!(
        parser.emit_with(&HtmlEmitter::new()).unwrap(),
        "<p>\n  *run\n</p>\n<ul>\n  <li>\n    item\n  </li>\n</ul>\n"
    );
}

#[test]
fn attribute_values_are_escaped() {
    let mut parser: Parser<Boxed> = Parser::new("> quoted words".into());
    parser.add_extension(Boxed);

    let mut emitter = HtmlEmitter::new();
    emitter.tagged_block(
        box_tag(),
        "blockquote".into(),
        vec![("title".into(), "say \"hi\" \\ now".into())],
    );

    assert_eq!(
        parser.emit_with(&emitter).unwrap(),
        "<blockquote title=\"say \\\"hi\\\" \\\\ now\">quoted words</blockquote>"
    );
}
