//! The parser engine: the block/element parse loop, extension
//! dispatch with snapshot-and-rollback, and the builtin paragraph
//! grammar, together with its mathematical model.

use vstd::prelude::*;

verus! {

use crate::ast::Block;
use crate::ast::BlockModel;
use crate::ast::Element;
use crate::ast::ElementModel;
use crate::ast::ParseError;
use crate::ast::block_models;
use crate::ast::char_slice_eq;
use crate::ast::lemma_block_models_push;
use crate::ast::element_models;
use crate::emitter::Emitter;
use crate::emitter::emit_all;
use crate::emitter::emit_blocks;
use crate::extensions::Extension;
use crate::scanner::Scanner;
use crate::scanner::char_at;
use crate::scanner::chars_to_string;
use crate::scanner::is_whitespace_char;
use crate::scanner::is_ws_char;
use crate::scanner::lemma_skip_comment_bounds;
use crate::scanner::lemma_skip_ws_bounds;
use crate::scanner::prefix_at;
use crate::scanner::skip_comment;
use crate::scanner::skip_ws;
use crate::scanner::string_to_chars;

/// The builtin end-of-block marker: a blank line (two newlines), a
/// newline at the very end of the input, or the end of the input
/// itself.
pub open spec fn builtin_end_of_block(s: Seq<char>, i: int) -> bool {
    i >= s.len() || (char_at(s, i) == '\n' && (i + 1 >= s.len() || char_at(s, i + 1) == '\n'))
}

/// The element loop's stop condition with a literal stop sequence:
/// the builtin marker, or `stop` occurring at the cursor.  The
/// builtin paragraph grammar uses an empty `stop`, which never
/// occurs; a list item stops at its bullet.
pub open spec fn end_of_block_at(stop: Seq<char>, s: Seq<char>, i: int) -> bool {
    builtin_end_of_block(s, i) || prefix_at(stop, s, i)
}

/// One builtin element-loop scan from position `i`: accumulates plain
/// text into `acc` (with runs of whitespace coalesced into a single
/// pending space and `#`-comments skipped) until the builtin
/// end-of-block marker, and yields the final text and position.
/// `ws` is the pending-space flag.
pub open spec fn para_scan(stop: Seq<char>, s: Seq<char>, i: int, ws: bool, acc: Seq<char>) -> (
    Seq<char>,
    int,
)
    decreases s.len() - i,
    via para_scan_decreases
{
    if end_of_block_at(stop, s, i) || i < 0 {
        (acc, i)
    } else {
        let c = s[i];
        if c == '#' {
            para_scan(stop, s, skip_comment(s, i + 1), ws, acc)
        } else if is_ws_char(c) {
            para_scan(stop, s, i + 1, true, acc)
        } else if ws {
            para_scan(stop, s, i + 1, false, acc + seq![' '] + seq![c])
        } else {
            para_scan(stop, s, i + 1, false, acc + seq![c])
        }
    }
}

#[via_fn]
proof fn para_scan_decreases(stop: Seq<char>, s: Seq<char>, i: int, ws: bool, acc: Seq<char>) {
    if !end_of_block_at(stop, s, i) && i >= 0 && s[i] == '#' {
        lemma_skip_comment_bounds(s, i + 1);
    }
}

pub proof fn lemma_para_scan_bounds(stop: Seq<char>, s: Seq<char>, i: int, ws: bool, acc: Seq<
    char,
>)
    requires
        0 <= i <= s.len(),
    ensures
        i <= para_scan(stop, s, i, ws, acc).1 <= s.len(),
    decreases s.len() - i,
{
    if !end_of_block_at(stop, s, i) {
        let c = s[i];
        if c == '#' {
            lemma_skip_comment_bounds(s, i + 1);
            lemma_para_scan_bounds(stop, s, skip_comment(s, i + 1), ws, acc);
        } else if is_ws_char(c) {
            lemma_para_scan_bounds(stop, s, i + 1, true, acc);
        } else if ws {
            lemma_para_scan_bounds(stop, s, i + 1, false, acc + seq![' '] + seq![c]);
        } else {
            lemma_para_scan_bounds(stop, s, i + 1, false, acc + seq![c]);
        }
    }
}

pub proof fn lemma_para_scan_progress(stop: Seq<char>, s: Seq<char>, i: int, ws: bool, acc: Seq<
    char,
>)
    requires
        0 <= i <= s.len(),
        !end_of_block_at(stop, s, i),
    ensures
        i < para_scan(stop, s, i, ws, acc).1 <= s.len(),
{
    let c = s[i];
    if c == '#' {
        lemma_skip_comment_bounds(s, i + 1);
        lemma_para_scan_bounds(stop, s, skip_comment(s, i + 1), ws, acc);
    } else if is_ws_char(c) {
        lemma_para_scan_bounds(stop, s, i + 1, true, acc);
    } else if ws {
        lemma_para_scan_bounds(stop, s, i + 1, false, acc + seq![' '] + seq![c]);
    } else {
        lemma_para_scan_bounds(stop, s, i + 1, false, acc + seq![c]);
    }
}

/// The elements the builtin element loop yields from position `i`
/// when no extension is registered: one plain-text element, or none
/// if the scan collected no text, together with the final position.
pub open spec fn para_elements(s: Seq<char>, i: int) -> (Seq<ElementModel>, int) {
    para_elements_stopping(Seq::empty(), s, i)
}

/// The elements the builtin element loop yields from position `i`
/// with a literal stop sequence: one plain-text element, or none if
/// the scan collected no text, together with the final position.
pub open spec fn para_elements_stopping(stop: Seq<char>, s: Seq<char>, i: int) -> (
    Seq<ElementModel>,
    int,
) {
    let (t, j) = para_scan(stop, s, i, false, Seq::empty());
    (
        if t.len() == 0 {
            Seq::empty()
        } else {
            seq![ElementModel::Text(t)]
        },
        j,
    )
}

/// The document a parse without registered extensions yields from
/// position `i`: whitespace and comments are skipped, then paragraph
/// blocks parsed, until the end of input.  A document of only
/// whitespace and comments yields no blocks.
pub open spec fn document_model(s: Seq<char>, i: int) -> Seq<BlockModel>
    decreases s.len() - i,
    via document_model_decreases
{
    if !(0 <= i <= s.len()) {
        Seq::empty()
    } else {
        let p = skip_ws(s, i);
        if p >= s.len() {
            Seq::empty()
        } else {
            let (es, j) = para_elements(s, p);
            seq![BlockModel::Paragraph(es)] + document_model(s, j)
        }
    }
}

#[via_fn]
proof fn document_model_decreases(s: Seq<char>, i: int) {
    if 0 <= i <= s.len() {
        let p = skip_ws(s, i);
        lemma_skip_ws_bounds(s, i);
        if p < s.len() {
            lemma_skip_ws_stops(s, i);
            lemma_para_scan_progress(Seq::empty(), s, p, false, Seq::empty());
        }
    }
}

/// Where `skip_ws` stops short of the end, it stops at a character
/// that is neither whitespace nor a comment opener.
pub proof fn lemma_skip_ws_stops(s: Seq<char>, i: int)
    requires
        0 <= i <= s.len(),
        skip_ws(s, i) < s.len(),
    ensures
        !is_ws_char(s[skip_ws(s, i)]),
        s[skip_ws(s, i)] != '#',
    decreases s.len() - i,
{
    if i < s.len() {
        if s[i] == '#' {
            lemma_skip_comment_bounds(s, i + 1);
            lemma_skip_ws_stops(s, skip_comment(s, i + 1));
        } else if is_ws_char(s[i]) {
            lemma_skip_ws_stops(s, i + 1);
        }
    }
}

/// Skipping whitespace is idempotent.
pub proof fn lemma_skip_ws_idempotent(s: Seq<char>, i: int)
    requires
        0 <= i <= s.len(),
    ensures
        skip_ws(s, skip_ws(s, i)) == skip_ws(s, i),
{
    lemma_skip_ws_bounds(s, i);
    if skip_ws(s, i) < s.len() {
        lemma_skip_ws_stops(s, i);
    }
}

/// The extensionless document model does not change under an initial
/// whitespace skip.
pub proof fn lemma_document_model_skip(s: Seq<char>, i: int)
    requires
        0 <= i <= s.len(),
    ensures
        document_model(s, skip_ws(s, i)) == document_model(s, i),
{
    lemma_skip_ws_bounds(s, i);
    lemma_skip_ws_idempotent(s, i);
}

/// Whether the builtin end-of-block marker holds at the cursor.
pub fn at_builtin_end_of_block(scanner: &Scanner) -> (r: bool)
    requires
        scanner.wf(),
    ensures
        r == builtin_end_of_block(scanner.input(), scanner.pos()),
{
    if scanner.is_at_end() {
        return true;
    }
    if scanner.peek() != '\n' {
        return false;
    }
    let p = scanner.position();
    let n = scanner.len();
    if p + 1 >= n {
        return true;
    }
    scanner.peek_at(p + 1) == '\n'
}

/// Whether the literal sequence `p` stands at the cursor.
pub fn sees_prefix(scanner: &Scanner, p: &[char]) -> (r: bool)
    requires
        scanner.wf(),
    ensures
        r == prefix_at(p@, scanner.input(), scanner.pos()),
{
    let plen = p.len();
    if plen == 0 {
        return false;
    }
    let got = scanner.peek_many(plen);
    if got.len() != plen {
        proof {
            assert(got@.len() < plen);
        }
        return false;
    }
    char_slice_eq(got, p)
}

/// The builtin element loop with a literal stop sequence and no
/// extension trials.  Block rules use it reentrantly: a bulleted
/// list item's inline content stops at the next bullet.  The result
/// is exactly the builtin scan [`para_elements_stopping`].
pub fn parse_elements_stopping(scanner: &mut Scanner, stop: &[char]) -> (r: Vec<Element>)
    requires
        old(scanner).wf(),
    ensures
        final(scanner).wf(),
        final(scanner).input() == old(scanner).input(),
        final(scanner).pos() >= old(scanner).pos(),
        element_models(r@) == para_elements_stopping(
            stop@,
            old(scanner).input(),
            old(scanner).pos(),
        ).0,
        final(scanner).pos() == para_elements_stopping(
            stop@,
            old(scanner).input(),
            old(scanner).pos(),
        ).1,
{
    let ghost inp = old(scanner).input();
    let ghost start = old(scanner).pos();
    let mut elements: Vec<Element> = Vec::new();
    let mut paragraph: Vec<char> = Vec::new();
    let mut whitespace = false;
    loop
        invariant
            inp == old(scanner).input(),
            start == old(scanner).pos(),
            scanner.wf(),
            scanner.input() == inp,
            scanner.pos() >= start,
            elements@.len() == 0,
            para_scan(stop@, inp, scanner.pos(), whitespace, paragraph@) == para_scan(
                stop@,
                inp,
                start,
                false,
                Seq::<char>::empty(),
            ),
        ensures
            scanner.wf(),
            scanner.input() == inp,
            scanner.pos() >= start,
            elements@.len() == 0,
            (paragraph@, scanner.pos()) == para_scan(stop@, inp, start, false, Seq::<char>::empty()),
        decreases inp.len() - scanner.pos(),
    {
        if at_builtin_end_of_block(scanner) {
            break;
        }
        if sees_prefix(scanner, stop) {
            break;
        }
        let ghost p0 = scanner.pos();
        let ghost para0 = paragraph@;
        let ghost ws0 = whitespace;
        let c = scanner.take();
        if c == '#' {
            scanner.move_past_comment();
            proof {
                assert(para_scan(stop@, inp, p0, ws0, para0) == para_scan(
                    stop@,
                    inp,
                    scanner.pos(),
                    whitespace,
                    paragraph@,
                ));
            }
        } else if is_whitespace_char(c) {
            whitespace = true;
            proof {
                assert(para_scan(stop@, inp, p0, ws0, para0) == para_scan(
                    stop@,
                    inp,
                    scanner.pos(),
                    whitespace,
                    paragraph@,
                ));
            }
        } else {
            if whitespace {
                paragraph.push(' ');
                whitespace = false;
            }
            paragraph.push(c);
            proof {
                if ws0 {
                    assert(paragraph@ =~= para0 + seq![' '] + seq![c]);
                } else {
                    assert(paragraph@ =~= para0 + seq![c]);
                }
                assert(para_scan(stop@, inp, p0, ws0, para0) == para_scan(
                    stop@,
                    inp,
                    scanner.pos(),
                    whitespace,
                    paragraph@,
                ));
            }
        }
    }
    if paragraph.len() > 0 {
        let text = chars_to_string(&paragraph);
        elements.push(Element::Text(text));
    }
    proof {
        assert(element_models(elements@) =~= para_elements_stopping(stop@, inp, start).0);
    }
    elements
}

/// The combined end-of-block condition: the builtin marker, or any
/// registered extension's vote.
pub open spec fn combined_end_of_block<E: Extension>(exts: Seq<E>, s: Seq<char>, i: int) -> bool {
    builtin_end_of_block(s, i) || exists|k: int|
        0 <= k < exts.len() && (#[trigger] exts[k]).end_vote(s, i)
}

/// The combined end-of-block predicate: every registered extension is
/// offered a vote, and any "yes" ends the block immediately; otherwise
/// the builtin marker decides.
pub fn sees_end_of_block<E: Extension>(scanner: &Scanner, exts: &[E]) -> (r: bool)
    requires
        scanner.wf(),
    ensures
        r == combined_end_of_block(exts@, scanner.input(), scanner.pos()),
        builtin_end_of_block(scanner.input(), scanner.pos()) ==> r,
        exts@.len() == 0 ==> r == builtin_end_of_block(scanner.input(), scanner.pos()),
{
    let mut i: usize = 0;
    while i < exts.len()
        invariant
            0 <= i <= exts@.len(),
            scanner.wf(),
            forall|j: int|
                0 <= j < i ==> !(#[trigger] exts@[j]).end_vote(scanner.input(), scanner.pos()),
        decreases exts@.len() - i,
    {
        if exts[i].sees_end_of_block(scanner) {
            proof {
                assert((#[trigger] exts@[i as int]).end_vote(scanner.input(), scanner.pos()));
            }
            return true;
        }
        i = i + 1;
    }
    at_builtin_end_of_block(scanner)
}

/// Offers each registered extension, in registration order, one trial
/// parse of an inline element; the first match wins.  The cursor is
/// snapshotted before each trial and restored exactly on "no match",
/// so on an overall "no match" the cursor is exactly where it began.
pub fn try_element_rules<E: Extension>(scanner: &mut Scanner, exts: &[E]) -> (r: Result<
    Option<Element>,
    ParseError,
>)
    requires
        old(scanner).wf(),
    ensures
        final(scanner).wf(),
        final(scanner).input() == old(scanner).input(),
        final(scanner).pos() >= old(scanner).pos(),
        (r matches Ok(o) && o is None) ==> final(scanner).pos() == old(scanner).pos(),
        (r matches Ok(o) && o is Some) ==> final(scanner).pos() > old(scanner).pos(),
        r matches Ok(o) ==> match o {
            Some(el) => exists|k: int|
                0 <= k < exts@.len() && (forall|j: int|
                    0 <= j < k ==> (#[trigger] exts@[j]).element_rule(
                        exts@,
                        old(scanner).input(),
                        old(scanner).pos(),
                    ) is None) && (#[trigger] exts@[k]).element_rule(
                    exts@,
                    old(scanner).input(),
                    old(scanner).pos(),
                ) == Some((el@, final(scanner).pos())),
            None => forall|k: int|
                0 <= k < exts@.len() ==> (#[trigger] exts@[k]).element_rule(
                    exts@,
                    old(scanner).input(),
                    old(scanner).pos(),
                ) is None,
        },
        exts@.len() == 0 ==> r == Ok::<Option<Element>, ParseError>(None) && final(scanner).pos()
            == old(scanner).pos(),
{
    let mut i: usize = 0;
    while i < exts.len()
        invariant
            0 <= i <= exts@.len(),
            scanner.wf(),
            scanner.input() == old(scanner).input(),
            scanner.pos() == old(scanner).pos(),
            forall|j: int|
                0 <= j < i ==> (#[trigger] exts@[j]).element_rule(
                    exts@,
                    old(scanner).input(),
                    old(scanner).pos(),
                ) is None,
        decreases exts@.len() - i,
    {
        let snapshot = scanner.position();
        match exts[i].parse_element(scanner, exts) {
            Err(e) => {
                return Err(e);
            },
            Ok(Some(el)) => {
                return Ok(Some(el));
            },
            Ok(None) => {
                scanner.set_position(snapshot);
            },
        }
        i = i + 1;
    }
    Ok(None)
}

/// Offers each registered extension, in registration order, one trial
/// parse of a whole block; the first match wins.  The cursor is
/// snapshotted before each trial and restored exactly on "no match".
pub fn try_block_rules<E: Extension>(scanner: &mut Scanner, exts: &[E]) -> (r: Result<
    Option<Block>,
    ParseError,
>)
    requires
        old(scanner).wf(),
    ensures
        final(scanner).wf(),
        final(scanner).input() == old(scanner).input(),
        final(scanner).pos() >= old(scanner).pos(),
        (r matches Ok(o) && o is None) ==> final(scanner).pos() == old(scanner).pos(),
        (r matches Ok(o) && o is Some) ==> final(scanner).pos() > old(scanner).pos(),
        r matches Ok(o) ==> match o {
            Some(b) => exists|k: int|
                0 <= k < exts@.len() && (forall|j: int|
                    0 <= j < k ==> (#[trigger] exts@[j]).block_rule(
                        exts@,
                        old(scanner).input(),
                        old(scanner).pos(),
                    ) is None) && (#[trigger] exts@[k]).block_rule(
                    exts@,
                    old(scanner).input(),
                    old(scanner).pos(),
                ) == Some((b@, final(scanner).pos())),
            None => forall|k: int|
                0 <= k < exts@.len() ==> (#[trigger] exts@[k]).block_rule(
                    exts@,
                    old(scanner).input(),
                    old(scanner).pos(),
                ) is None,
        },
        exts@.len() == 0 ==> r == Ok::<Option<Block>, ParseError>(None) && final(scanner).pos()
            == old(scanner).pos(),
{
    let mut i: usize = 0;
    while i < exts.len()
        invariant
            0 <= i <= exts@.len(),
            scanner.wf(),
            scanner.input() == old(scanner).input(),
            scanner.pos() == old(scanner).pos(),
            forall|j: int|
                0 <= j < i ==> (#[trigger] exts@[j]).block_rule(
                    exts@,
                    old(scanner).input(),
                    old(scanner).pos(),
                ) is None,
        decreases exts@.len() - i,
    {
        let snapshot = scanner.position();
        match exts[i].parse_block(scanner, exts) {
            Err(e) => {
                return Err(e);
            },
            Ok(Some(block)) => {
                return Ok(Some(block));
            },
            Ok(None) => {
                scanner.set_position(snapshot);
            },
        }
        i = i + 1;
    }
    Ok(None)
}

/// No element rule of `exts` on input `s` ever yields a bare text
/// element: plain text is the builtin accumulator's job.
pub open spec fn no_bare_text_rules<E: Extension>(exts: Seq<E>, s: Seq<char>) -> bool {
    forall|k: int, i: int|
        0 <= k < exts.len() ==> match #[trigger] exts[k].element_rule(exts, s, i) {
            Some(p) => !(p.0 is Text),
            None => true,
        }
}

/// The structure the builtin accumulator guarantees: no empty text
/// element, and no two adjacent text elements — plain text between
/// extension matches is flushed as one text token.
pub open spec fn no_degenerate_texts(es: Seq<ElementModel>) -> bool {
    &&& forall|k: int|
        0 <= k < es.len() ==> match #[trigger] es[k] {
            ElementModel::Text(t) => t.len() > 0,
            _ => true,
        }
    &&& forall|k: int| 0 <= k < es.len() - 1 ==> !((#[trigger] es[k]) is Text && es[k + 1] is Text)
}

/// The shared element loop, used for top-level paragraphs and for
/// extension-internal inline content.  At each position every
/// extension gets a trial element parse (first match wins); otherwise
/// one character is consumed: `#` skips a comment, whitespace
/// coalesces into a single pending space, and any other character
/// extends the pending text.  The loop stops at the combined
/// end-of-block predicate.
///
/// Without registered extensions the result is exactly the builtin
/// paragraph scan [`para_elements`].
pub fn parse_elements<E: Extension>(scanner: &mut Scanner, exts: &[E]) -> (r: Result<
    Vec<Element>,
    ParseError,
>)
    requires
        old(scanner).wf(),
    ensures
        final(scanner).wf(),
        final(scanner).input() == old(scanner).input(),
        final(scanner).pos() >= old(scanner).pos(),
        exts@.len() == 0 ==> (r matches Ok(v) && element_models(v@) == para_elements(
            old(scanner).input(),
            old(scanner).pos(),
        ).0 && final(scanner).pos() == para_elements(old(scanner).input(), old(scanner).pos()).1),
        no_bare_text_rules(exts@, old(scanner).input()) ==> (r matches Ok(v)
            ==> no_degenerate_texts(element_models(v@))),
        r matches Ok(v) ==> combined_end_of_block(
            exts@,
            old(scanner).input(),
            final(scanner).pos(),
        ),
{
    let ghost inp = old(scanner).input();
    let ghost start = old(scanner).pos();
    let mut elements: Vec<Element> = Vec::new();
    let mut paragraph: Vec<char> = Vec::new();
    let mut whitespace = false;
    loop
        invariant
            inp == old(scanner).input(),
            start == old(scanner).pos(),
            scanner.wf(),
            scanner.input() == inp,
            scanner.pos() >= start,
            exts@.len() == 0 ==> (elements@.len() == 0 && para_scan(
                Seq::empty(),
                inp,
                scanner.pos(),
                whitespace,
                paragraph@,
            ) == para_scan(Seq::empty(), inp, start, false, Seq::<char>::empty())),
            no_bare_text_rules(exts@, inp) ==> (no_degenerate_texts(element_models(elements@)) && (
            element_models(elements@).len() > 0 ==> !(element_models(elements@).last() is Text))),
        ensures
            scanner.wf(),
            scanner.input() == inp,
            scanner.pos() >= start,
            exts@.len() == 0 ==> (elements@.len() == 0 && (paragraph@, scanner.pos())
                == para_scan(Seq::empty(), inp, start, false, Seq::<char>::empty())),
            no_bare_text_rules(exts@, inp) ==> (no_degenerate_texts(element_models(elements@)) && (
            element_models(elements@).len() > 0 ==> !(element_models(elements@).last() is Text))),
            combined_end_of_block(exts@, inp, scanner.pos()),
        decreases inp.len() - scanner.pos(),
    {
        if sees_end_of_block(scanner, exts) {
            break;
        }
        let trial = try_element_rules(scanner, exts);
        let el_opt = match trial {
            Err(e) => {
                return Err(e);
            },
            Ok(o) => o,
        };
        if let Some(el) = el_opt {
            proof {
                if no_bare_text_rules(exts@, inp) {
                    assert(!(el@ is Text));
                }
            }
            if whitespace {
                paragraph.push(' ');
                whitespace = false;
            }
            if paragraph.len() > 0 {
                let text = chars_to_string(&paragraph);
                paragraph = Vec::new();
                let ghost before = element_models(elements@);
                let flushed = Element::Text(text);
                proof {
                    assert(element_models(elements@.push(flushed)) =~= before.push(flushed@));
                }
                elements.push(flushed);
            }
            let ghost mid = element_models(elements@);
            proof {
                assert(element_models(elements@.push(el)) =~= mid.push(el@));
            }
            elements.push(el);
        } else {
            let ghost p0 = scanner.pos();
            let ghost para0 = paragraph@;
            let ghost ws0 = whitespace;
            let c = scanner.take();
            if c == '#' {
                scanner.move_past_comment();
                proof {
                    if exts@.len() == 0 {
                        assert(para_scan(Seq::empty(), inp, p0, ws0, para0) == para_scan(
                            Seq::empty(),
                            inp,
                            scanner.pos(),
                            whitespace,
                            paragraph@,
                        ));
                    }
                }
            } else if is_whitespace_char(c) {
                whitespace = true;
                proof {
                    if exts@.len() == 0 {
                        assert(para_scan(Seq::empty(), inp, p0, ws0, para0) == para_scan(
                            Seq::empty(),
                            inp,
                            scanner.pos(),
                            whitespace,
                            paragraph@,
                        ));
                    }
                }
            } else {
                if whitespace {
                    paragraph.push(' ');
                    whitespace = false;
                }
                paragraph.push(c);
                proof {
                    if exts@.len() == 0 {
                        if ws0 {
                            assert(paragraph@ =~= para0 + seq![' '] + seq![c]);
                        } else {
                            assert(paragraph@ =~= para0 + seq![c]);
                        }
                        assert(para_scan(Seq::empty(), inp, p0, ws0, para0) == para_scan(
                            Seq::empty(),
                            inp,
                            scanner.pos(),
                            whitespace,
                            paragraph@,
                        ));
                    }
                }
            }
        }
    }
    if paragraph.len() > 0 {
        let text = chars_to_string(&paragraph);
        let ghost before = element_models(elements@);
        let flushed = Element::Text(text);
        proof {
            assert(element_models(elements@.push(flushed)) =~= before.push(flushed@));
        }
        elements.push(flushed);
    }
    proof {
        if exts@.len() == 0 {
            let t = para_scan(Seq::empty(), inp, start, false, Seq::<char>::empty()).0;
            if t.len() == 0 {
                assert(element_models(elements@) =~= para_elements(inp, start).0);
            } else {
                assert(element_models(elements@) =~= para_elements(inp, start).0);
            }
        }
    }
    Ok(elements)
}

/// The builtin fallback block rule: a paragraph of inline elements.
/// Requesting a paragraph with no remaining characters is the one
/// core-level error.
pub fn parse_paragraph_block<E: Extension>(scanner: &mut Scanner, exts: &[E]) -> (r: Result<
    Block,
    ParseError,
>)
    requires
        old(scanner).wf(),
    ensures
        final(scanner).wf(),
        final(scanner).input() == old(scanner).input(),
        final(scanner).pos() >= old(scanner).pos(),
        old(scanner).pos() == old(scanner).input().len() ==> (r matches Err(e) && e
            == ParseError::UnexpectedEndOfFile),
        r matches Ok(b) ==> b@ is Paragraph,
        exts@.len() == 0 ==> ((r matches Err(e)) <==> old(scanner).pos() == old(
            scanner,
        ).input().len()),
        (exts@.len() == 0 && old(scanner).pos() < old(scanner).input().len()) ==> (r matches Ok(b)
            && b@ == BlockModel::Paragraph(
            para_elements(old(scanner).input(), old(scanner).pos()).0,
        ) && final(scanner).pos() == para_elements(old(scanner).input(), old(scanner).pos()).1),
{
    if scanner.is_at_end() {
        return Err(ParseError::UnexpectedEndOfFile);
    }
    let es = match parse_elements(scanner, exts) {
        Err(e) => {
            return Err(e);
        },
        Ok(es) => es,
    };
    Ok(Block::Paragraph(es))
}

/// One block: each registered extension's block rule is tried in
/// registration order and the first match wins; otherwise the builtin
/// paragraph grammar applies.
pub fn parse_block<E: Extension>(scanner: &mut Scanner, exts: &[E]) -> (r: Result<
    Block,
    ParseError,
>)
    requires
        old(scanner).wf(),
    ensures
        final(scanner).wf(),
        final(scanner).input() == old(scanner).input(),
        final(scanner).pos() >= old(scanner).pos(),
        r matches Ok(b) ==> ((exists|k: int|
            0 <= k < exts@.len() && (forall|j: int|
                0 <= j < k ==> (#[trigger] exts@[j]).block_rule(
                    exts@,
                    old(scanner).input(),
                    old(scanner).pos(),
                ) is None) && (#[trigger] exts@[k]).block_rule(
                exts@,
                old(scanner).input(),
                old(scanner).pos(),
            ) == Some((b@, final(scanner).pos()))) || ((forall|k: int|
            0 <= k < exts@.len() ==> (#[trigger] exts@[k]).block_rule(
                exts@,
                old(scanner).input(),
                old(scanner).pos(),
            ) is None) && b@ is Paragraph)),
        exts@.len() == 0 ==> ((r matches Err(e)) <==> old(scanner).pos() == old(
            scanner,
        ).input().len()),
        (exts@.len() == 0 && old(scanner).pos() < old(scanner).input().len()) ==> (r matches Ok(b)
            && b@ == BlockModel::Paragraph(
            para_elements(old(scanner).input(), old(scanner).pos()).0,
        ) && final(scanner).pos() == para_elements(old(scanner).input(), old(scanner).pos()).1),
{
    let blk = match try_block_rules(scanner, exts) {
        Err(e) => {
            return Err(e);
        },
        Ok(o) => o,
    };
    match blk {
        Some(b) => Ok(b),
        None => parse_paragraph_block(scanner, exts),
    }
}

/// `b` is a block the dispatch can produce on input `s` with `exts`
/// registered: the first-match output of some extension's block rule
/// at some position, or a builtin paragraph.
pub open spec fn dispatched_block<E: Extension>(exts: Seq<E>, s: Seq<char>, b: BlockModel) -> bool {
    (exists|i: int, m: int|
        0 <= m < exts.len() && (forall|n: int|
            0 <= n < m ==> (#[trigger] exts[n]).block_rule(exts, s, i) is None) && ((
        #[trigger] exts[m].block_rule(exts, s, i)) matches Some(p) && p.0 == b)) || b is Paragraph
}

/// Owns the input buffer, the cursor, and the ordered extension
/// list.  Constructed once per document and consumed by exactly one
/// terminal operation ([`Parser::parse`] or [`Parser::emit_with`]).
pub struct Parser<E: Extension> {
    scanner: Scanner,
    extensions: Vec<E>,
}

impl<E: Extension> Parser<E> {
    /// The full input, as characters.
    pub closed spec fn input(&self) -> Seq<char> {
        self.scanner.input()
    }

    /// The current cursor offset.
    pub closed spec fn pos(&self) -> int {
        self.scanner.pos()
    }

    /// The registered extensions, in registration order.
    pub closed spec fn registered(&self) -> Seq<E> {
        self.extensions@
    }

    /// How many extensions are registered.
    pub open spec fn num_extensions(&self) -> nat {
        self.registered().len()
    }

    pub open spec fn wf(&self) -> bool {
        0 <= self.pos() <= self.input().len()
    }

    pub fn new(raw: String) -> (p: Parser<E>)
        ensures
            p.wf(),
            p.input() == raw@,
            p.pos() == 0,
            p.num_extensions() == 0,
    {
        Parser { scanner: Scanner::new(string_to_chars(raw.as_str())), extensions: Vec::new() }
    }

    /// Registers one more grammar rule; extensions are consulted in
    /// registration order.
    pub fn add_extension(&mut self, extension: E)
        requires
            old(self).wf(),
        ensures
            final(self).wf(),
            final(self).input() == old(self).input(),
            final(self).pos() == old(self).pos(),
            final(self).registered() == old(self).registered().push(extension),
    {
        self.extensions.push(extension);
    }

    /// The top-level document loop: skip whitespace and comments,
    /// parse a block, repeat until the end of input.  A document of
    /// only whitespace and comments yields zero blocks, not an error.
    /// Without registered extensions the result is exactly the
    /// builtin [`document_model`].
    pub fn parse(self) -> (r: Result<Vec<Block>, ParseError>)
        requires
            self.wf(),
        ensures
            self.num_extensions() == 0 ==> (r matches Ok(v) && block_models(v@) == document_model(
                self.input(),
                self.pos(),
            )),
            skip_ws(self.input(), self.pos()) == self.input().len() ==> (r matches Ok(v)
                && v@.len() == 0),
            r matches Ok(v) ==> forall|k: int|
                0 <= k < v@.len() ==> dispatched_block(
                    self.registered(),
                    self.input(),
                    ((#[trigger] v@[k])@),
                ),
    {
        let ghost inp = self.input();
        let ghost start = self.pos();
        let ghost n_exts = self.num_extensions();
        let Parser { mut scanner, extensions } = self;
        let exts = extensions.as_slice();
        let mut out: Vec<Block> = Vec::new();
        proof {
            lemma_skip_ws_bounds(inp, start);
            lemma_skip_ws_idempotent(inp, start);
            if n_exts == 0 {
                lemma_document_model_skip(inp, start);
            }
        }
        scanner.move_past_whitespace();
        loop
            invariant_except_break
                skip_ws(inp, scanner.pos()) == scanner.pos(),
            invariant
                inp == self.input(),
                start == self.pos(),
                n_exts == self.num_extensions(),
                exts@ == self.registered(),
                exts@.len() == n_exts,
                scanner.wf(),
                scanner.input() == inp,
                forall|k: int|
                    0 <= k < out@.len() ==> dispatched_block(exts@, inp, ((#[trigger] out@[k])@)),
                n_exts == 0 ==> block_models(out@) + document_model(inp, scanner.pos())
                    == document_model(inp, start),
                skip_ws(inp, start) == inp.len() ==> (out@.len() == 0 && scanner.pos()
                    == inp.len()),
            ensures
                scanner.wf(),
                scanner.input() == inp,
                n_exts == 0 ==> (block_models(out@) + document_model(inp, scanner.pos())
                    == document_model(inp, start) && scanner.pos() == inp.len()),
                skip_ws(inp, start) == inp.len() ==> out@.len() == 0,
                forall|k: int|
                    0 <= k < out@.len() ==> dispatched_block(exts@, inp, ((#[trigger] out@[k])@)),
            decreases inp.len() - scanner.pos(),
        {
            if scanner.is_at_end() {
                break;
            }
            let p_before = scanner.position();
            let b = match parse_block(&mut scanner, exts) {
                Err(e) => {
                    return Err(e);
                },
                Ok(b) => b,
            };
            proof {
                lemma_skip_ws_stops(inp, p_before as int);
                if n_exts == 0 {
                    lemma_para_scan_progress(
                        Seq::empty(),
                        inp,
                        p_before as int,
                        false,
                        Seq::<char>::empty(),
                    );
                    lemma_block_models_push(out@, b);
                }
            }
            out.push(b);
            if scanner.position() == p_before {
                // A rule set that consumed nothing would repeat this
                // block forever; the document ends here instead.  The
                // builtin grammar always consumes, so this is only
                // reachable through a registered extension.
                break;
            }
            let ghost mid = scanner.pos();
            proof {
                lemma_skip_ws_bounds(inp, mid);
                lemma_skip_ws_idempotent(inp, mid);
                if n_exts == 0 {
                    lemma_document_model_skip(inp, mid);
                }
            }
            scanner.move_past_whitespace();
        }
        proof {
            if n_exts == 0 {
                assert(document_model(inp, scanner.pos()) =~= Seq::<BlockModel>::empty());
                assert(block_models(out@) + Seq::<BlockModel>::empty() =~= block_models(out@));
            }
        }
        Ok(out)
    }

    /// Parses the whole document and renders it with the given
    /// backend in one terminal operation.
    pub fn emit_with<M: Emitter>(self, emitter: &M) -> (r: Result<String, ParseError>)
        requires
            self.wf(),
        ensures
            self.num_extensions() == 0 ==> (r matches Ok(s) && s@ == emit_all(
                emitter,
                document_model(self.input(), self.pos()),
                Seq::empty(),
            )),
            skip_ws(self.input(), self.pos()) == self.input().len() ==> (r matches Ok(s)
                && s@.len() == 0),
    {
        let ghost n_exts = self.num_extensions();
        let ghost inp = self.input();
        let ghost start = self.pos();
        let blocks = match self.parse() {
            Err(e) => {
                return Err(e);
            },
            Ok(b) => b,
        };
        let out = emit_blocks(emitter, &blocks);
        proof {
            if skip_ws(inp, start) == inp.len() {
                assert(blocks@.len() == 0);
                assert(block_models(blocks@) =~= Seq::<BlockModel>::empty());
            }
        }
        Ok(out)
    }
}


/// A text is fully whitespace-coalesced: its only whitespace
/// character is the single space, no two spaces are adjacent, and it
/// neither begins nor ends with a space.
pub open spec fn coalesced(t: Seq<char>) -> bool {
    &&& forall|i: int| 0 <= i < t.len() ==> (!is_ws_char(t[i]) || t[i] == ' ')
    &&& forall|i: int| 0 <= i < t.len() - 1 ==> !(#[trigger] t[i] == ' ' && t[i + 1] == ' ')
    &&& t.len() > 0 ==> t[0] != ' '
    &&& t.len() > 0 ==> t[t.len() - 1] != ' '
}

proof fn lemma_para_scan_coalesced_general(
    stop: Seq<char>,
    s: Seq<char>,
    i: int,
    ws: bool,
    acc: Seq<char>,
)
    requires
        0 <= i <= s.len(),
        coalesced(acc),
        acc.len() == 0 ==> (!ws && skip_ws(s, i) == i),
    ensures
        coalesced(para_scan(stop, s, i, ws, acc).0),
    decreases s.len() - i,
{
    if !end_of_block_at(stop, s, i) {
        let c = s[i];
        if c == '#' {
            lemma_skip_comment_bounds(s, i + 1);
            if acc.len() == 0 {
                lemma_skip_ws_bounds(s, skip_comment(s, i + 1));
                assert(false);
            }
            lemma_para_scan_coalesced_general(stop, s, skip_comment(s, i + 1), ws, acc);
        } else if is_ws_char(c) {
            if acc.len() == 0 {
                lemma_skip_ws_bounds(s, i + 1);
                assert(false);
            }
            lemma_para_scan_coalesced_general(stop, s, i + 1, true, acc);
        } else {
            let acc2 = if ws {
                acc + seq![' '] + seq![c]
            } else {
                acc + seq![c]
            };
            assert(coalesced(acc2));
            lemma_para_scan_coalesced_general(stop, s, i + 1, false, acc2);
        }
    }
}

/// Whitespace coalescing: from any position where leading whitespace
/// and comments are already consumed, every run of spaces, tabs and
/// newlines inside the scanned text collapses to exactly one space,
/// and the text carries no space at either end.
pub proof fn lemma_whitespace_coalesced(stop: Seq<char>, s: Seq<char>, i: int)
    requires
        0 <= i <= s.len(),
        skip_ws(s, i) == i,
    ensures
        coalesced(para_scan(stop, s, i, false, Seq::empty()).0),
{
    lemma_para_scan_coalesced_general(stop, s, i, false, Seq::empty());
}

/// Comment stripping: a `#` and everything it opens are consumed by
/// the comment skip, so no scanned text ever contains a `#`,
/// wherever the comment starts.
pub proof fn lemma_comment_stripped(stop: Seq<char>, s: Seq<char>, i: int, ws: bool, acc: Seq<
    char,
>)
    requires
        0 <= i <= s.len(),
        !acc.contains('#'),
    ensures
        !para_scan(stop, s, i, ws, acc).0.contains('#'),
    decreases s.len() - i,
{
    if !end_of_block_at(stop, s, i) {
        let c = s[i];
        if c == '#' {
            lemma_skip_comment_bounds(s, i + 1);
            lemma_comment_stripped(stop, s, skip_comment(s, i + 1), ws, acc);
        } else if is_ws_char(c) {
            lemma_comment_stripped(stop, s, i + 1, true, acc);
        } else {
            let acc2 = if ws {
                acc + seq![' '] + seq![c]
            } else {
                acc + seq![c]
            };
            assert(!acc2.contains('#')) by {
                assert(forall|k: int| 0 <= k < acc2.len() ==> acc2[k] != '#');
            }
            lemma_comment_stripped(stop, s, i + 1, false, acc2);
        }
    }
}


/// Every plain-text element of a paragraph block is fully coalesced
/// and free of comment openers.
pub open spec fn paragraph_texts_clean(b: BlockModel) -> bool {
    match b {
        BlockModel::Paragraph(es) => forall|k: int|
            0 <= k < es.len() ==> match #[trigger] es[k] {
                ElementModel::Text(t) => coalesced(t) && !t.contains('#'),
                _ => true,
            },
        _ => true,
    }
}

/// Whitespace coalescing and comment stripping at the document
/// level: every text of every paragraph an extensionless parse
/// yields collapses internal whitespace runs to single spaces,
/// carries no space at either end, and contains no `#`.
pub proof fn lemma_document_texts_clean(s: Seq<char>, i: int)
    requires
        0 <= i <= s.len(),
    ensures
        forall|k: int|
            0 <= k < document_model(s, i).len() ==> paragraph_texts_clean(
                #[trigger] document_model(s, i)[k],
            ),
    decreases s.len() - i,
{
    let p = skip_ws(s, i);
    lemma_skip_ws_bounds(s, i);
    if p < s.len() {
        lemma_skip_ws_idempotent(s, i);
        lemma_whitespace_coalesced(Seq::empty(), s, p);
        lemma_comment_stripped(Seq::empty(), s, p, false, Seq::empty());
        let (es, j) = para_elements(s, p);
        lemma_skip_ws_stops(s, i);
        lemma_para_scan_progress(Seq::empty(), s, p, false, Seq::empty());
        lemma_document_texts_clean(s, j);
        assert(paragraph_texts_clean(BlockModel::Paragraph(es)));
        assert forall|k: int| 0 <= k < document_model(s, i).len() implies paragraph_texts_clean(
            #[trigger] document_model(s, i)[k],
        ) by {
            if k > 0 {
                assert(document_model(s, i)[k] == document_model(s, j)[k - 1]);
            }
        }
    }
}

} // verus!
