//! The extension protocol: pluggable grammar rules consulted by the
//! parser engine, and the three reference extensions (bold emphasis,
//! italic emphasis, bulleted lists).

use vstd::prelude::*;

verus! {

use crate::ast::Block;
use crate::ast::BlockModel;
use crate::ast::Element;
use crate::ast::ElementModel;
use crate::ast::ExtensionTag;
use crate::ast::ParseError;
use crate::ast::block_models;
use crate::ast::lemma_block_models_len;
use crate::ast::lemma_block_models_push;
use crate::parser::at_builtin_end_of_block;
use crate::parser::builtin_end_of_block;
use crate::parser::combined_end_of_block;
use crate::parser::parse_elements;
use crate::parser::sees_end_of_block;
use crate::parser::lemma_para_scan_bounds;
use crate::parser::para_elements_stopping;
use crate::parser::parse_elements_stopping;
use crate::parser::sees_prefix;
use crate::scanner::Scanner;
use crate::scanner::chars_to_string;
use crate::scanner::char_at;
use crate::scanner::lemma_skip_ws_bounds;
use crate::scanner::prefix_at;
use crate::scanner::skip_ws;
use crate::scanner::string_to_chars;

/// A pluggable grammar rule with three capabilities.
///
/// The engine snapshots the cursor before each trial and restores it
/// exactly on "no match", so a declining extension need not clean up
/// after itself.  An extension may call back into the parsing
/// primitives; a composition of several rules behind one type
/// (an enum with one variant per rule) can delegate to the reentrant
/// combinators [`parse_emphasis_element`] and [`parse_list_rule`],
/// which consult the whole registered list again, exactly as the
/// engine itself does.
///
/// Each capability's observable behaviour is pinned by a spec-level
/// model (`block_rule`, `element_rule`, `end_vote`): what a trial
/// returns, and where it leaves the cursor, is a function of the
/// registered list, the input and the entry position alone.  Every
/// implementation must keep the scanner within its buffer, leave the
/// input itself unchanged, and only ever move the cursor forward; a
/// successful match must consume at least one character, since a
/// "match" that consumes nothing would make the engine's parse loops
/// spin forever.
pub trait Extension: Sized {
    /// Model of the whole-block grammar: what one trial at position
    /// `i` of `s`, with `exts` registered, yields — `None` for "no
    /// match", or the block's model and the cursor position just
    /// past what was consumed.  The default models a rule without
    /// this capability.
    open spec fn block_rule(&self, exts: Seq<Self>, s: Seq<char>, i: int) -> Option<
        (BlockModel, int),
    > {
        None
    }

    /// Model of the inline-element grammar, as `block_rule`.
    open spec fn element_rule(&self, exts: Seq<Self>, s: Seq<char>, i: int) -> Option<
        (ElementModel, int),
    > {
        None
    }

    /// Model of the end-of-block vote at position `i` of `s`.
    open spec fn end_vote(&self, s: Seq<char>, i: int) -> bool {
        false
    }

    /// Attempt to consume a whole block at the cursor; `None` means
    /// "no match".
    fn parse_block(&self, scanner: &mut Scanner, exts: &[Self]) -> (r: Result<
        Option<Block>,
        ParseError,
    >)
        requires
            old(scanner).wf(),
        ensures
            final(scanner).wf(),
            final(scanner).input() == old(scanner).input(),
            final(scanner).pos() >= old(scanner).pos(),
            r matches Ok(o) ==> match o {
                Some(b) => self.block_rule(exts@, old(scanner).input(), old(scanner).pos())
                    == Some((b@, final(scanner).pos())) && final(scanner).pos() > old(
                    scanner,
                ).pos(),
                None => self.block_rule(exts@, old(scanner).input(), old(scanner).pos()) is None,
            },
    ;

    /// Attempt to consume a single inline element at the cursor;
    /// `None` means "no match".
    fn parse_element(&self, scanner: &mut Scanner, exts: &[Self]) -> (r: Result<
        Option<Element>,
        ParseError,
    >)
        requires
            old(scanner).wf(),
        ensures
            final(scanner).wf(),
            final(scanner).input() == old(scanner).input(),
            final(scanner).pos() >= old(scanner).pos(),
            r matches Ok(o) ==> match o {
                Some(el) => self.element_rule(exts@, old(scanner).input(), old(scanner).pos())
                    == Some((el@, final(scanner).pos())) && final(scanner).pos() > old(
                    scanner,
                ).pos(),
                None => self.element_rule(exts@, old(scanner).input(), old(scanner).pos())
                    is None,
            },
    ;

    /// Pure predicate: the current block ends here even without the
    /// builtin blank-line/end-of-input marker.
    fn sees_end_of_block(&self, scanner: &Scanner) -> (r: bool)
        requires
            scanner.wf(),
        ensures
            r == self.end_vote(scanner.input(), scanner.pos()),
    ;
}

/// The name of the builtin bold-emphasis tag.
pub open spec fn bold_tag_name() -> Seq<char> {
    "builtin:BOLD"@
}

/// The builtin bold-emphasis tag.
pub fn bold_tag() -> (t: ExtensionTag)
    ensures
        t@ == bold_tag_name(),
{
    ExtensionTag("builtin:BOLD")
}

/// The name of the builtin italic-emphasis tag.
pub open spec fn italics_tag_name() -> Seq<char> {
    "builtin:ITALICS"@
}

/// The builtin italic-emphasis tag.
pub fn italics_tag() -> (t: ExtensionTag)
    ensures
        t@ == italics_tag_name(),
{
    ExtensionTag("builtin:ITALICS")
}

/// The name of the builtin list tag.
pub open spec fn list_tag_name() -> Seq<char> {
    "builtin:LIST"@
}

/// The builtin list tag.
pub fn list_tag() -> (t: ExtensionTag)
    ensures
        t@ == list_tag_name(),
{
    ExtensionTag("builtin:LIST")
}

/// The name of the builtin list-item tag.
pub open spec fn list_item_tag_name() -> Seq<char> {
    "builtin:LIST_ITEM"@
}

/// The builtin list-item tag.
pub fn list_item_tag() -> (t: ExtensionTag)
    ensures
        t@ == list_item_tag_name(),
{
    ExtensionTag("builtin:LIST_ITEM")
}

/// One emphasis scan from position `i` (just past the opening
/// delimiter): the flat text up to the closing delimiter and the
/// position past it, or `None` if the block ends first, with the
/// position where the scan stopped.
pub open spec fn delimited_scan(delimiter: char, s: Seq<char>, i: int, acc: Seq<char>) -> (
    Option<Seq<char>>,
    int,
)
    decreases s.len() - i,
{
    if builtin_end_of_block(s, i) || i < 0 {
        (None, i)
    } else if s[i] == delimiter {
        (Some(acc), i + 1)
    } else {
        delimited_scan(delimiter, s, i + 1, acc + seq![s[i]])
    }
}

/// The shared grammar of the two emphasis extensions: the delimiter,
/// then a flat text run, then the delimiter again.  Reaching the end
/// of the current block first means "no match"; the engine then
/// rolls the cursor back, so the opening delimiter is not consumed
/// on failure.
pub fn parse_delimited_element(delimiter: char, tag: ExtensionTag, scanner: &mut Scanner) -> (r:
    Result<Option<Element>, ParseError>)
    requires
        old(scanner).wf(),
    ensures
        final(scanner).wf(),
        final(scanner).input() == old(scanner).input(),
        final(scanner).pos() >= old(scanner).pos(),
        (r matches Ok(o) && o is Some) ==> final(scanner).pos() > old(scanner).pos(),
        char_at(old(scanner).input(), old(scanner).pos()) != delimiter || old(scanner).pos()
            >= old(scanner).input().len() ==> (r == Ok::<Option<Element>, ParseError>(None)
            && final(scanner).pos() == old(scanner).pos()),
        (char_at(old(scanner).input(), old(scanner).pos()) == delimiter && old(scanner).pos()
            < old(scanner).input().len()) ==> ({
            let (o, j) = delimited_scan(
                delimiter,
                old(scanner).input(),
                old(scanner).pos() + 1,
                Seq::empty(),
            );
            final(scanner).pos() == j && (match o {
                Some(t) => r matches Ok(ro) && ro matches Some(el) && el@
                    == ElementModel::ExtensionElement(
                    tag@,
                    Box::new(ElementModel::Text(t)),
                ),
                None => r == Ok::<Option<Element>, ParseError>(None),
            })
        }),
{
    if scanner.is_at_end() {
        return Ok(None);
    }
    if scanner.peek() != delimiter {
        return Ok(None);
    }
    let ghost inp = old(scanner).input();
    let ghost start = old(scanner).pos();
    scanner.take();
    let mut text: Vec<char> = Vec::new();
    let mut matched = false;
    loop
        invariant_except_break
            !matched,
            delimited_scan(delimiter, inp, scanner.pos(), text@) == delimited_scan(
                delimiter,
                inp,
                start + 1,
                Seq::<char>::empty(),
            ),
        invariant
            inp == old(scanner).input(),
            start == old(scanner).pos(),
            scanner.wf(),
            scanner.input() == inp,
            scanner.pos() > start,
        ensures
            scanner.wf(),
            scanner.input() == inp,
            scanner.pos() > start,
            ({
                let (o, j) = delimited_scan(delimiter, inp, start + 1, Seq::<char>::empty());
                scanner.pos() == j && (matched ==> o == Some(text@)) && (!matched ==> o
                    is None)
            }),
        decreases inp.len() - scanner.pos(),
    {
        if at_builtin_end_of_block(scanner) {
            break;
        }
        let c = scanner.take();
        if c == delimiter {
            matched = true;
            break;
        }
        proof {
            assert(text@.push(c) =~= text@ + seq![c]);
        }
        text.push(c);
    }
    if matched {
        let text_s = chars_to_string(&text);
        let inner = Element::Text(text_s);
        proof {
            assert(inner@ == ElementModel::Text(text@));
        }
        let ghost inner_m = inner@;
        let el = Element::ExtensionElement(tag, Box::new(inner));
        proof {
            assert(el@ == ElementModel::ExtensionElement(tag@, Box::new(inner_m)));
        }
        Ok(Some(el))
    } else {
        Ok(None)
    }
}

/// Model of one emphasis trial at position `i`: no match unless the
/// delimiter stands at the cursor and a closing delimiter occurs
/// before the block ends; on a match, the tagged flat text and the
/// position past the closing delimiter.
pub open spec fn emphasis_rule(delimiter: char, tag_name: Seq<char>, s: Seq<char>, i: int) -> Option<
    (ElementModel, int),
> {
    if i >= s.len() || char_at(s, i) != delimiter {
        None
    } else {
        let (o, j) = delimited_scan(delimiter, s, i + 1, Seq::empty());
        match o {
            Some(t) => Some(
                (ElementModel::ExtensionElement(tag_name, Box::new(ElementModel::Text(t))), j),
            ),
            None => None,
        }
    }
}

/// Bold emphasis: `*text*` becomes an extension element tagged
/// [`bold_tag`] around the flat inner text.
///
/// The impl is the homogeneous instantiation: among peers of type
/// `Bold` every end-of-block vote is "no", so the builtin-only scan
/// it uses equals the combined-predicate scan.  A mixed composition
/// delegates its bold variant to [`parse_emphasis_element`] instead.
pub struct Bold;

impl Extension for Bold {
    open spec fn block_rule(&self, exts: Seq<Bold>, s: Seq<char>, i: int) -> Option<
        (BlockModel, int),
    > {
        None
    }

    open spec fn element_rule(&self, exts: Seq<Bold>, s: Seq<char>, i: int) -> Option<
        (ElementModel, int),
    > {
        emphasis_rule('*', bold_tag_name(), s, i)
    }

    open spec fn end_vote(&self, s: Seq<char>, i: int) -> bool {
        false
    }

    fn parse_block(&self, _scanner: &mut Scanner, _exts: &[Bold]) -> (r: Result<
        Option<Block>,
        ParseError,
    >) {
        Ok(None)
    }

    fn parse_element(&self, scanner: &mut Scanner, _exts: &[Bold]) -> (r: Result<
        Option<Element>,
        ParseError,
    >) {
        parse_delimited_element('*', bold_tag(), scanner)
    }

    fn sees_end_of_block(&self, _scanner: &Scanner) -> (r: bool) {
        false
    }
}

/// Italic emphasis: `/text/` becomes an extension element tagged
/// [`italics_tag`] around the flat inner text.
///
/// The impl is the homogeneous instantiation, as [`Bold`]; a mixed
/// composition delegates to [`parse_emphasis_element`].
pub struct Italics;

impl Extension for Italics {
    open spec fn block_rule(&self, exts: Seq<Italics>, s: Seq<char>, i: int) -> Option<
        (BlockModel, int),
    > {
        None
    }

    open spec fn element_rule(&self, exts: Seq<Italics>, s: Seq<char>, i: int) -> Option<
        (ElementModel, int),
    > {
        emphasis_rule('/', italics_tag_name(), s, i)
    }

    open spec fn end_vote(&self, s: Seq<char>, i: int) -> bool {
        false
    }

    fn parse_block(&self, _scanner: &mut Scanner, _exts: &[Italics]) -> (r: Result<
        Option<Block>,
        ParseError,
    >) {
        Ok(None)
    }

    fn parse_element(&self, scanner: &mut Scanner, _exts: &[Italics]) -> (r: Result<
        Option<Element>,
        ParseError,
    >) {
        parse_delimited_element('/', italics_tag(), scanner)
    }

    fn sees_end_of_block(&self, _scanner: &Scanner) -> (r: bool) {
        false
    }
}

/// The blocks one run of consecutive bulleted items yields from
/// position `i`, with the position past the run: per item, the
/// bullet, then whitespace and comments, then inline content up to
/// the next end-of-block signal (the bullet recurring included).
pub open spec fn list_items_model(bullet: Seq<char>, s: Seq<char>, i: int) -> (
    Seq<BlockModel>,
    int,
)
    decreases s.len() - i,
    via list_items_model_decreases
{
    if !(0 <= i <= s.len()) || !prefix_at(bullet, s, i) {
        (Seq::empty(), i)
    } else {
        let j = skip_ws(s, i + bullet.len());
        let (es, k) = para_elements_stopping(bullet, s, j);
        let (rest, m) = list_items_model(bullet, s, k);
        (seq![BlockModel::ExtensionBlock(list_item_tag_name(), es)] + rest, m)
    }
}

#[via_fn]
proof fn list_items_model_decreases(bullet: Seq<char>, s: Seq<char>, i: int) {
    if 0 <= i <= s.len() && prefix_at(bullet, s, i) {
        lemma_skip_ws_bounds(s, i + bullet.len() as int);
        let j = skip_ws(s, i + bullet.len());
        lemma_para_scan_bounds(bullet, s, j, false, Seq::empty());
    }
}

pub proof fn lemma_list_items_bounds(bullet: Seq<char>, s: Seq<char>, i: int)
    requires
        0 <= i <= s.len(),
    ensures
        i <= list_items_model(bullet, s, i).1 <= s.len(),
        prefix_at(bullet, s, i) ==> i < list_items_model(bullet, s, i).1,
    decreases s.len() - i,
{
    if prefix_at(bullet, s, i) {
        lemma_skip_ws_bounds(s, i + bullet.len() as int);
        let j = skip_ws(s, i + bullet.len());
        lemma_para_scan_bounds(bullet, s, j, false, Seq::empty());
        let k = para_elements_stopping(bullet, s, j).1;
        lemma_list_items_bounds(bullet, s, k);
    }
}

/// Bulleted lists, configured with a literal bullet sequence: each
/// run of consecutive bulleted items becomes one extension block
/// group.  The bullet recurring at the cursor also votes "end of
/// block", so a preceding paragraph stops cleanly without a blank
/// line.
///
/// The impl is the homogeneous instantiation: item content stops at
/// this bullet and the builtin marker, which is the combined
/// predicate when this is the only registered rule.  A mixed
/// composition delegates its list variant to [`parse_list_rule`],
/// whose items run through the shared element loop with every
/// registered extension's trials and votes.
pub struct Lists(Vec<char>);

impl Lists {
    /// The configured bullet.
    pub closed spec fn bullet(&self) -> Seq<char> {
        self.0@
    }

    pub fn new(bullet: &str) -> (l: Lists)
        ensures
            l.bullet() == bullet@,
    {
        Lists(string_to_chars(bullet))
    }

    /// Whether the configured bullet stands at the cursor.  An empty
    /// bullet never matches: it would make every position a list and
    /// the parse could never progress.
    pub fn sees_bullet(&self, scanner: &Scanner) -> (r: bool)
        requires
            scanner.wf(),
        ensures
            r == prefix_at(self.bullet(), scanner.input(), scanner.pos()),
    {
        sees_prefix(scanner, self.0.as_slice())
    }

    /// One run of consecutive bulleted items, wrapped as a list
    /// group; exactly the blocks of [`list_items_model`].
    pub fn parse_list(&self, scanner: &mut Scanner) -> (r: Result<Block, ParseError>)
        requires
            old(scanner).wf(),
        ensures
            final(scanner).wf(),
            final(scanner).input() == old(scanner).input(),
            final(scanner).pos() >= old(scanner).pos(),
            r matches Ok(b) && b@ == BlockModel::ExtensionBlocks(
                list_tag_name(),
                list_items_model(self.bullet(), old(scanner).input(), old(scanner).pos()).0,
            ),
            final(scanner).pos() == list_items_model(
                self.bullet(),
                old(scanner).input(),
                old(scanner).pos(),
            ).1,
    {
        let ghost inp = old(scanner).input();
        let ghost start = old(scanner).pos();
        let mut items: Vec<Block> = Vec::new();
        while self.sees_bullet(scanner)
            invariant
                inp == old(scanner).input(),
                start == old(scanner).pos(),
                scanner.wf(),
                scanner.input() == inp,
                scanner.pos() >= start,
                block_models(items@) + list_items_model(self.bullet(), inp, scanner.pos()).0
                    == list_items_model(self.bullet(), inp, start).0,
                list_items_model(self.bullet(), inp, scanner.pos()).1 == list_items_model(
                    self.bullet(),
                    inp,
                    start,
                ).1,
            decreases inp.len() - scanner.pos(),
        {
            let ghost p0 = scanner.pos();
            let item = self.parse_list_item(scanner);
            proof {
                lemma_block_models_push(items@, item);
                assert(block_models(items@.push(item)) + list_items_model(
                    self.bullet(),
                    inp,
                    scanner.pos(),
                ).0 =~= block_models(items@) + list_items_model(self.bullet(), inp, p0).0);
            }
            items.push(item);
        }
        proof {
            assert(block_models(items@) + Seq::<BlockModel>::empty() =~= block_models(items@));
        }
        Ok(Block::ExtensionBlocks(list_tag(), items))
    }

    /// One bulleted item: the bullet, any following whitespace, then
    /// inline elements up to the next end-of-block signal.
    pub fn parse_list_item(&self, scanner: &mut Scanner) -> (b: Block)
        requires
            old(scanner).wf(),
            prefix_at(self.bullet(), old(scanner).input(), old(scanner).pos()),
        ensures
            final(scanner).wf(),
            final(scanner).input() == old(scanner).input(),
            final(scanner).pos() > old(scanner).pos(),
            ({
                let j = skip_ws(
                    old(scanner).input(),
                    old(scanner).pos() + self.bullet().len(),
                );
                let (es, k) = para_elements_stopping(self.bullet(), old(scanner).input(), j);
                b@ == BlockModel::ExtensionBlock(list_item_tag_name(), es) && final(scanner).pos()
                    == k
            }),
    {
        scanner.take_many(self.0.len());
        proof {
            lemma_skip_ws_bounds(scanner.input(), scanner.pos());
        }
        scanner.move_past_whitespace();
        proof {
            lemma_para_scan_bounds(self.bullet(), scanner.input(), scanner.pos(), false, Seq::empty());
        }
        let es = parse_elements_stopping(scanner, self.0.as_slice());
        Block::ExtensionBlock(list_item_tag(), es)
    }
}

impl Extension for Lists {
    open spec fn block_rule(&self, exts: Seq<Lists>, s: Seq<char>, i: int) -> Option<
        (BlockModel, int),
    > {
        if prefix_at(self.bullet(), s, i) {
            let (items, j) = list_items_model(self.bullet(), s, i);
            Some((BlockModel::ExtensionBlocks(list_tag_name(), items), j))
        } else {
            None
        }
    }

    open spec fn element_rule(&self, exts: Seq<Lists>, s: Seq<char>, i: int) -> Option<
        (ElementModel, int),
    > {
        None
    }

    open spec fn end_vote(&self, s: Seq<char>, i: int) -> bool {
        prefix_at(self.bullet(), s, i)
    }

    fn parse_block(&self, scanner: &mut Scanner, _exts: &[Lists]) -> (r: Result<
        Option<Block>,
        ParseError,
    >) {
        if self.sees_bullet(scanner) {
            proof {
                lemma_list_items_bounds(self.bullet(), scanner.input(), scanner.pos());
            }
            match self.parse_list(scanner) {
                Ok(b) => Ok(Some(b)),
                Err(e) => Err(e),
            }
        } else {
            Ok(None)
        }
    }

    fn parse_element(&self, _scanner: &mut Scanner, _exts: &[Lists]) -> (r: Result<
        Option<Element>,
        ParseError,
    >) {
        Ok(None)
    }

    fn sees_end_of_block(&self, scanner: &Scanner) -> (r: bool) {
        self.sees_bullet(scanner)
    }
}


/// One emphasis scan from position `i` under the combined
/// end-of-block condition (the builtin marker or any registered
/// extension's vote), as [`delimited_scan`] is under the builtin
/// marker alone.
pub open spec fn delimited_scan_voted<E: Extension>(
    exts: Seq<E>,
    delimiter: char,
    s: Seq<char>,
    i: int,
    acc: Seq<char>,
) -> (Option<Seq<char>>, int)
    decreases s.len() - i,
{
    if combined_end_of_block(exts, s, i) || i < 0 {
        (None, i)
    } else if s[i] == delimiter {
        (Some(acc), i + 1)
    } else {
        delimited_scan_voted(exts, delimiter, s, i + 1, acc + seq![s[i]])
    }
}

/// The emphasis grammar, reentrant over the whole registered list:
/// the inner scan stops wherever the combined end-of-block predicate
/// holds, every extension's vote included.  A composition of several
/// rules behind one type delegates its emphasis variants here, which
/// keeps the engine's shared predicate exactly as the homogeneous
/// [`Bold`] and [`Italics`] impls have it (their peers all vote
/// "no", so for them the builtin-only scan is the same function).
pub fn parse_emphasis_element<E: Extension>(
    delimiter: char,
    tag: ExtensionTag,
    scanner: &mut Scanner,
    exts: &[E],
) -> (r: Result<Option<Element>, ParseError>)
    requires
        old(scanner).wf(),
    ensures
        final(scanner).wf(),
        final(scanner).input() == old(scanner).input(),
        final(scanner).pos() >= old(scanner).pos(),
        (r matches Ok(o) && o is Some) ==> final(scanner).pos() > old(scanner).pos(),
        char_at(old(scanner).input(), old(scanner).pos()) != delimiter || old(scanner).pos()
            >= old(scanner).input().len() ==> (r == Ok::<Option<Element>, ParseError>(None)
            && final(scanner).pos() == old(scanner).pos()),
        (char_at(old(scanner).input(), old(scanner).pos()) == delimiter && old(scanner).pos()
            < old(scanner).input().len()) ==> ({
            let (o, j) = delimited_scan_voted(
                exts@,
                delimiter,
                old(scanner).input(),
                old(scanner).pos() + 1,
                Seq::empty(),
            );
            final(scanner).pos() == j && (match o {
                Some(t) => r matches Ok(ro) && ro matches Some(el) && el@
                    == ElementModel::ExtensionElement(tag@, Box::new(ElementModel::Text(t))),
                None => r == Ok::<Option<Element>, ParseError>(None),
            })
        }),
{
    if scanner.is_at_end() {
        return Ok(None);
    }
    if scanner.peek() != delimiter {
        return Ok(None);
    }
    let ghost inp = old(scanner).input();
    let ghost start = old(scanner).pos();
    scanner.take();
    let mut text: Vec<char> = Vec::new();
    let mut matched = false;
    loop
        invariant_except_break
            !matched,
            delimited_scan_voted(exts@, delimiter, inp, scanner.pos(), text@)
                == delimited_scan_voted(exts@, delimiter, inp, start + 1, Seq::<char>::empty()),
        invariant
            inp == old(scanner).input(),
            start == old(scanner).pos(),
            scanner.wf(),
            scanner.input() == inp,
            scanner.pos() > start,
        ensures
            scanner.wf(),
            scanner.input() == inp,
            scanner.pos() > start,
            ({
                let (o, j) = delimited_scan_voted(
                    exts@,
                    delimiter,
                    inp,
                    start + 1,
                    Seq::<char>::empty(),
                );
                scanner.pos() == j && (matched ==> o == Some(text@)) && (!matched ==> o is None)
            }),
        decreases inp.len() - scanner.pos(),
    {
        if sees_end_of_block(scanner, exts) {
            break;
        }
        let c = scanner.take();
        if c == delimiter {
            matched = true;
            break;
        }
        proof {
            assert(text@.push(c) =~= text@ + seq![c]);
        }
        text.push(c);
    }
    if matched {
        let text_s = chars_to_string(&text);
        let inner = Element::Text(text_s);
        proof {
            assert(inner@ == ElementModel::Text(text@));
        }
        let ghost inner_m = inner@;
        let el = Element::ExtensionElement(tag, Box::new(inner));
        proof {
            assert(el@ == ElementModel::ExtensionElement(tag@, Box::new(inner_m)));
        }
        Ok(Some(el))
    } else {
        Ok(None)
    }
}

/// The bulleted-list grammar, reentrant over the whole registered
/// list: each item's inline content runs through the shared element
/// loop, so every registered extension's element trials and
/// end-of-block votes apply inside items.  A composition of several
/// rules behind one type delegates its list variant here.  The
/// result is "no match" exactly when the bullet is absent at the
/// cursor; a match is one maximal run of bulleted items, each a
/// list-item block.
pub fn parse_list_rule<E: Extension>(lists: &Lists, scanner: &mut Scanner, exts: &[E]) -> (r:
    Result<Option<Block>, ParseError>)
    requires
        old(scanner).wf(),
    ensures
        final(scanner).wf(),
        final(scanner).input() == old(scanner).input(),
        final(scanner).pos() >= old(scanner).pos(),
        !prefix_at(lists.bullet(), old(scanner).input(), old(scanner).pos()) ==> (r == Ok::<
            Option<Block>,
            ParseError,
        >(None) && final(scanner).pos() == old(scanner).pos()),
        prefix_at(lists.bullet(), old(scanner).input(), old(scanner).pos()) ==> (r matches Ok(o)
            ==> (o matches Some(b) && final(scanner).pos() > old(scanner).pos() && !prefix_at(
            lists.bullet(),
            old(scanner).input(),
            final(scanner).pos(),
        ) && (b@ matches BlockModel::ExtensionBlocks(t, items) && t == list_tag_name()
            && items.len() >= 1 && (forall|k: int|
            0 <= k < items.len() ==> ((#[trigger] items[k]) matches BlockModel::ExtensionBlock(
                tt,
                es,
            ) && tt == list_item_tag_name()))))),
{
    let ghost inp = old(scanner).input();
    let ghost start = old(scanner).pos();
    if !lists.sees_bullet(scanner) {
        return Ok(None);
    }
    let mut items: Vec<Block> = Vec::new();
    while lists.sees_bullet(scanner)
        invariant
            inp == old(scanner).input(),
            start == old(scanner).pos(),
            prefix_at(lists.bullet(), inp, start),
            scanner.wf(),
            scanner.input() == inp,
            scanner.pos() >= start,
            items@.len() == 0 ==> scanner.pos() == start,
            items@.len() > 0 ==> scanner.pos() > start,
            forall|k: int|
                0 <= k < items@.len() ==> (((#[trigger] items@[k])@)
                    matches BlockModel::ExtensionBlock(tt, es) && tt == list_item_tag_name()),
        decreases inp.len() - scanner.pos(),
    {
        scanner.take_many(lists.0.len());
        proof {
            lemma_skip_ws_bounds(scanner.input(), scanner.pos());
        }
        scanner.move_past_whitespace();
        let es = match parse_elements(scanner, exts) {
            Err(e) => {
                return Err(e);
            },
            Ok(es) => es,
        };
        items.push(Block::ExtensionBlock(list_item_tag(), es));
    }
    proof {
        lemma_block_models_len(items@);
    }
    Ok(Some(Block::ExtensionBlocks(list_tag(), items)))
}

} // verus!
