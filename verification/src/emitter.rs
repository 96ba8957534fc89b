//! The emitter protocol: a visitor over blocks and elements that
//! renders to one target output format, with the two reference
//! backends (structured markup and plain text).

use vstd::prelude::*;

verus! {

use vstd::string::StrSliceExecFns;

use crate::ast::Block;
use crate::ast::BlockModel;
use crate::ast::Element;
use crate::ast::ElementModel;
use crate::ast::ExtensionTag;
use crate::ast::block_models;
use crate::ast::element_models;
use crate::ast::lemma_block_models_len;
use crate::extensions::bold_tag;
use crate::extensions::bold_tag_name;
use crate::extensions::italics_tag;
use crate::extensions::italics_tag_name;
use crate::extensions::list_item_tag;
use crate::extensions::list_item_tag_name;
use crate::extensions::list_tag;
use crate::extensions::list_tag_name;
use crate::scanner::chars_to_string;

/// Appends the characters of `s` to `out`.
pub fn push_str_chars(out: &mut Vec<char>, s: &str)
    ensures
        final(out)@ == old(out)@ + s@,
{
    let n = s.unicode_len();
    let mut i: usize = 0;
    while i < n
        invariant
            0 <= i <= n,
            n as nat == s@.len(),
            out@ == old(out)@ + s@.subrange(0, i as int),
        decreases n - i,
    {
        let c = s.get_char(i);
        out.push(c);
        proof {
            assert(old(out)@ + s@.subrange(0, i + 1) =~= (old(out)@ + s@.subrange(0, i as int)).push(
                s@[i as int],
            ));
        }
        i = i + 1;
    }
    proof {
        assert(s@.subrange(0, s@.len() as int) =~= s@);
    }
}

/// A visitor dispatched on blocks, recursively on elements,
/// rendering to one output format.  What one block appends to the
/// output is pinned down by the backend's own `block_out`, which may
/// depend on the output emitted so far.
pub trait Emitter {
    /// What emitting `b` appends after `prior` output.
    spec fn block_out(&self, b: BlockModel, prior: Seq<char>) -> Seq<char>;

    fn emit_block(&self, block: &Block, out: &mut Vec<char>)
        ensures
            final(out)@ == old(out)@ + self.block_out(block@, old(out)@),
    ;
}

/// The output of emitting each of `bs` in order after `prior`.
pub open spec fn emit_all<M: Emitter>(em: &M, bs: Seq<BlockModel>, prior: Seq<char>) -> Seq<char>
    decreases bs.len(),
{
    if bs.len() == 0 {
        prior
    } else {
        emit_all(em, bs.subrange(1, bs.len() as int), prior + em.block_out(bs[0], prior))
    }
}

/// Renders a parsed document with the given backend.
pub fn emit_blocks<M: Emitter>(emitter: &M, blocks: &Vec<Block>) -> (out: String)
    ensures
        out@ == emit_all(emitter, block_models(blocks@), Seq::empty()),
{
    let ghost all = block_models(blocks@);
    proof {
        lemma_block_models_len(blocks@);
    }
    let mut out: Vec<char> = Vec::new();
    proof {
        assert(all.subrange(0, all.len() as int) =~= all);
    }
    let mut i: usize = 0;
    while i < blocks.len()
        invariant
            0 <= i <= blocks@.len(),
            all == block_models(blocks@),
            all.len() == blocks@.len(),
            forall|k: int| 0 <= k < blocks@.len() ==> all[k] == blocks@[k]@,
            emit_all(emitter, all, Seq::empty()) == emit_all(
                emitter,
                all.subrange(i as int, all.len() as int),
                out@,
            ),
        decreases blocks@.len() - i,
    {
        let ghost rest = all.subrange(i as int, all.len() as int);
        emitter.emit_block(&blocks[i], &mut out);
        proof {
            assert(rest.subrange(1, rest.len() as int) =~= all.subrange(
                i + 1,
                all.len() as int,
            ));
        }
        i = i + 1;
    }
    proof {
        assert(all.subrange(all.len() as int, all.len() as int) =~= Seq::<BlockModel>::empty());
    }
    chars_to_string(&out)
}

/// The entity a structured-markup backend emits for one character:
/// apostrophe, double quote, `<`, `>` and `&` become named entities;
/// every other character passes through unchanged.
pub open spec fn escape_char(c: char) -> Seq<char> {
    if c == '\'' {
        "&apos;"@
    } else if c == '"' {
        "&quot;"@
    } else if c == '<' {
        "&lt;"@
    } else if c == '>' {
        "&gt;"@
    } else if c == '&' {
        "&amp;"@
    } else {
        seq![c]
    }
}

/// Character-by-character escaping of a whole text.
pub open spec fn escape(s: Seq<char>) -> Seq<char>
    decreases s.len(),
{
    if s.len() == 0 {
        Seq::empty()
    } else {
        escape_char(s[0]) + escape(s.subrange(1, s.len() as int))
    }
}

pub proof fn lemma_escape_concat(a: Seq<char>, b: Seq<char>)
    ensures
        escape(a + b) == escape(a) + escape(b),
    decreases a.len(),
{
    if a.len() == 0 {
        assert(a + b =~= b);
        assert(escape(a) + escape(b) =~= escape(b));
    } else {
        let t = a.subrange(1, a.len() as int);
        lemma_escape_concat(t, b);
        assert((a + b).subrange(1, (a + b).len() as int) =~= t + b);
        assert(escape(a + b) == escape_char(a[0]) + escape(t + b));
        assert(escape_char(a[0]) + (escape(t) + escape(b)) =~= (escape_char(a[0]) + escape(t))
            + escape(b));
    }
}

/// The escape of one attribute-value character: a double quote or a
/// backslash gets a backslash before it, so the value sits safely
/// between double quotes; every other character, control characters
/// included, passes through unchanged.
pub open spec fn attr_escape_char(c: char) -> Seq<char> {
    if c == '"' || c == '\\' {
        seq!['\\', c]
    } else {
        seq![c]
    }
}

/// Character-by-character escaping of an attribute value.
pub open spec fn attr_escape(s: Seq<char>) -> Seq<char>
    decreases s.len(),
{
    if s.len() == 0 {
        Seq::empty()
    } else {
        attr_escape_char(s[0]) + attr_escape(s.subrange(1, s.len() as int))
    }
}

pub proof fn lemma_attr_escape_concat(a: Seq<char>, b: Seq<char>)
    ensures
        attr_escape(a + b) == attr_escape(a) + attr_escape(b),
    decreases a.len(),
{
    if a.len() == 0 {
        assert(a + b =~= b);
        assert(attr_escape(a) + attr_escape(b) =~= attr_escape(b));
    } else {
        let t = a.subrange(1, a.len() as int);
        lemma_attr_escape_concat(t, b);
        assert((a + b).subrange(1, (a + b).len() as int) =~= t + b);
        assert(attr_escape(a + b) == attr_escape_char(a[0]) + attr_escape(t + b));
        assert(attr_escape_char(a[0]) + (attr_escape(t) + attr_escape(b)) =~= (attr_escape_char(
            a[0],
        ) + attr_escape(t)) + attr_escape(b));
    }
}

/// One attribute list, rendered as ` name="value"` pairs, the value
/// escaped by [`attr_escape`].
pub open spec fn attrs_out(attrs: Seq<(Seq<char>, Seq<char>)>) -> Seq<char>
    decreases attrs.len(),
{
    if attrs.len() == 0 {
        Seq::empty()
    } else {
        seq![' '] + attrs[0].0 + seq!['='] + seq!['"'] + attr_escape(attrs[0].1) + seq!['"']
            + attrs_out(attrs.subrange(1, attrs.len() as int))
    }
}

/// One caller-registered markup rule, as a model: the tag it applies
/// to, the wrapper element name, and the attribute name/value pairs.
pub open spec fn rule_model(entry: (ExtensionTag, String, Vec<(String, String)>)) -> (
    Seq<char>,
    Seq<char>,
    Seq<(Seq<char>, Seq<char>)>,
) {
    (entry.0@, entry.1@, entry.2@.map(|i: int, p: (String, String)| (p.0@, p.1@)))
}

/// The models of a whole rule table, in order.
pub open spec fn rule_models(t: Seq<(ExtensionTag, String, Vec<(String, String)>)>) -> Seq<
    (Seq<char>, Seq<char>, Seq<(Seq<char>, Seq<char>)>),
> {
    t.map(|i: int, e: (ExtensionTag, String, Vec<(String, String)>)| rule_model(e))
}

/// First-match lookup of a tag in a rule table.
pub open spec fn rule_lookup(
    table: Seq<(Seq<char>, Seq<char>, Seq<(Seq<char>, Seq<char>)>)>,
    tag: Seq<char>,
) -> Option<(Seq<char>, Seq<(Seq<char>, Seq<char>)>)>
    decreases table.len(),
{
    if table.len() == 0 {
        None
    } else if table[0].0 == tag {
        Some((table[0].1, table[0].2))
    } else {
        rule_lookup(table.subrange(1, table.len() as int), tag)
    }
}

/// The structured markup one element yields: text is escaped; bold
/// and italics map to fixed wrappers; any other tag goes through the
/// caller-registered element table, or falls back to the wrapped
/// element unadorned.
pub open spec fn html_element_out(
    e: ElementModel,
    etable: Seq<(Seq<char>, Seq<char>, Seq<(Seq<char>, Seq<char>)>)>,
) -> Seq<char>
    decreases e,
{
    match e {
        ElementModel::Text(t) => escape(t),
        ElementModel::ExtensionElement(tag, inner) => if tag == bold_tag_name() {
            "<strong>"@ + html_element_out(*inner, etable) + "</strong>"@
        } else if tag == italics_tag_name() {
            "<em>"@ + html_element_out(*inner, etable) + "</em>"@
        } else {
            match rule_lookup(etable, tag) {
                Some(rule) => seq!['<'] + rule.0 + attrs_out(rule.1) + seq!['>']
                    + html_element_out(*inner, etable) + seq!['<', '/'] + rule.0 + seq!['>'],
                None => html_element_out(*inner, etable),
            }
        },
    }
}

/// The structured markup a sequence of elements yields, in order.
pub open spec fn html_elements_out(
    es: Seq<ElementModel>,
    etable: Seq<(Seq<char>, Seq<char>, Seq<(Seq<char>, Seq<char>)>)>,
) -> Seq<char>
    decreases es.len(),
{
    if es.len() == 0 {
        Seq::empty()
    } else {
        html_element_out(es[0], etable) + html_elements_out(
            es.subrange(1, es.len() as int),
            etable,
        )
    }
}

pub proof fn lemma_html_elements_out_concat(
    a: Seq<ElementModel>,
    b: Seq<ElementModel>,
    etable: Seq<(Seq<char>, Seq<char>, Seq<(Seq<char>, Seq<char>)>)>,
)
    ensures
        html_elements_out(a + b, etable) == html_elements_out(a, etable) + html_elements_out(
            b,
            etable,
        ),
    decreases a.len(),
{
    if a.len() == 0 {
        assert(a + b =~= b);
        assert(html_elements_out(a, etable) + html_elements_out(b, etable) =~= html_elements_out(
            b,
            etable,
        ));
    } else {
        let t = a.subrange(1, a.len() as int);
        lemma_html_elements_out_concat(t, b, etable);
        assert((a + b).subrange(1, (a + b).len() as int) =~= t + b);
        assert(html_element_out(a[0], etable) + (html_elements_out(t, etable)
            + html_elements_out(b, etable)) =~= (html_element_out(a[0], etable)
            + html_elements_out(t, etable)) + html_elements_out(b, etable));
    }
}


/// The attribute-pair models of a stored attribute list.
pub open spec fn attr_models(a: Seq<(String, String)>) -> Seq<(Seq<char>, Seq<char>)> {
    a.map(|i: int, p: (String, String)| (p.0@, p.1@))
}

/// The structured markup one block yields.  A paragraph becomes a
/// fixed container; the builtin list and list-item tags become fixed
/// wrappers, checked before the caller-registered tables; any other
/// block tag goes through its table, an unknown block tag falling
/// back to a generic container that carries the tag name as a
/// diagnostic attribute, and an unknown group tag to its bare
/// contents.
pub open spec fn html_block_out(
    b: BlockModel,
    etable: Seq<(Seq<char>, Seq<char>, Seq<(Seq<char>, Seq<char>)>)>,
    btable: Seq<(Seq<char>, Seq<char>, Seq<(Seq<char>, Seq<char>)>)>,
    bstable: Seq<(Seq<char>, Seq<char>, Seq<(Seq<char>, Seq<char>)>)>,
) -> Seq<char>
    decreases b,
{
    match b {
        BlockModel::Paragraph(es) => "<p>\n  "@ + html_elements_out(es, etable) + "\n</p>\n"@,
        BlockModel::ExtensionBlock(tag, es) => if tag == list_item_tag_name() {
            "  <li>\n    "@ + html_elements_out(es, etable) + "\n  </li>\n"@
        } else {
            match rule_lookup(btable, tag) {
                Some(rule) => seq!['<'] + rule.0 + attrs_out(rule.1) + seq!['>']
                    + html_elements_out(es, etable) + seq!['<', '/'] + rule.0 + seq!['>'],
                None => "<div data-publ-tag=\""@ + tag + "\">\n  "@ + html_elements_out(
                    es,
                    etable,
                ) + "\n</div>\n"@,
            }
        },
        BlockModel::ExtensionBlocks(tag, bs) => if tag == list_tag_name() {
            "<ul>\n"@ + html_blocks_out(bs, etable, btable, bstable) + "</ul>\n"@
        } else {
            match rule_lookup(bstable, tag) {
                Some(rule) => seq!['<'] + rule.0 + attrs_out(rule.1) + seq!['>']
                    + html_blocks_out(bs, etable, btable, bstable) + seq!['<', '/'] + rule.0
                    + seq!['>'],
                None => html_blocks_out(bs, etable, btable, bstable),
            }
        },
    }
}

/// The structured markup a sequence of blocks yields, in order.
pub open spec fn html_blocks_out(
    bs: Seq<BlockModel>,
    etable: Seq<(Seq<char>, Seq<char>, Seq<(Seq<char>, Seq<char>)>)>,
    btable: Seq<(Seq<char>, Seq<char>, Seq<(Seq<char>, Seq<char>)>)>,
    bstable: Seq<(Seq<char>, Seq<char>, Seq<(Seq<char>, Seq<char>)>)>,
) -> Seq<char>
    decreases bs,
{
    if bs.len() == 0 {
        Seq::empty()
    } else {
        html_block_out(bs[0], etable, btable, bstable) + html_blocks_out(
            bs.subrange(1, bs.len() as int),
            etable,
            btable,
            bstable,
        )
    }
}


pub proof fn lemma_html_blocks_out_concat(
    a: Seq<BlockModel>,
    b: Seq<BlockModel>,
    etable: Seq<(Seq<char>, Seq<char>, Seq<(Seq<char>, Seq<char>)>)>,
    btable: Seq<(Seq<char>, Seq<char>, Seq<(Seq<char>, Seq<char>)>)>,
    bstable: Seq<(Seq<char>, Seq<char>, Seq<(Seq<char>, Seq<char>)>)>,
)
    ensures
        html_blocks_out(a + b, etable, btable, bstable) == html_blocks_out(
            a,
            etable,
            btable,
            bstable,
        ) + html_blocks_out(b, etable, btable, bstable),
    decreases a.len(),
{
    if a.len() == 0 {
        assert(a + b =~= b);
        assert(html_blocks_out(a, etable, btable, bstable) + html_blocks_out(
            b,
            etable,
            btable,
            bstable,
        ) =~= html_blocks_out(b, etable, btable, bstable));
    } else {
        let t = a.subrange(1, a.len() as int);
        lemma_html_blocks_out_concat(t, b, etable, btable, bstable);
        assert((a + b).subrange(1, (a + b).len() as int) =~= t + b);
        assert(html_block_out(a[0], etable, btable, bstable) + (html_blocks_out(
            t,
            etable,
            btable,
            bstable,
        ) + html_blocks_out(b, etable, btable, bstable)) =~= (html_block_out(
            a[0],
            etable,
            btable,
            bstable,
        ) + html_blocks_out(t, etable, btable, bstable)) + html_blocks_out(
            b,
            etable,
            btable,
            bstable,
        ));
    }
}

pub proof fn lemma_attrs_out_concat(a: Seq<(Seq<char>, Seq<char>)>, b: Seq<(Seq<char>, Seq<char>)>)
    ensures
        attrs_out(a + b) == attrs_out(a) + attrs_out(b),
    decreases a.len(),
{
    if a.len() == 0 {
        assert(a + b =~= b);
        assert(attrs_out(a) + attrs_out(b) =~= attrs_out(b));
    } else {
        let t = a.subrange(1, a.len() as int);
        lemma_attrs_out_concat(t, b);
        assert((a + b).subrange(1, (a + b).len() as int) =~= t + b);
        let head = seq![' '] + a[0].0 + seq!['='] + seq!['"'] + attr_escape(a[0].1) + seq!['"'];
        assert(attrs_out(a + b) == head + attrs_out(t + b));
        assert(head + (attrs_out(t) + attrs_out(b)) =~= (head + attrs_out(t)) + attrs_out(b));
    }
}

/// Appends one attribute value, escaped by [`attr_escape`].
fn emit_attr_value(value: &String, out: &mut Vec<char>)
    ensures
        final(out)@ == old(out)@ + attr_escape(value@),
{
    let s = value.as_str();
    let n = s.unicode_len();
    proof {
        assert(value@.subrange(0, 0) =~= Seq::<char>::empty());
    }
    let mut i: usize = 0;
    while i < n
        invariant
            0 <= i <= n,
            n as nat == value@.len(),
            s@ == value@,
            out@ == old(out)@ + attr_escape(value@.subrange(0, i as int)),
        decreases n - i,
    {
        let c = s.get_char(i);
        if c == '"' || c == '\\' {
            out.push('\\');
            out.push(c);
        } else {
            out.push(c);
        }
        proof {
            let head = value@.subrange(0, i as int);
            let one = seq![value@[i as int]];
            lemma_attr_escape_concat(head, one);
            assert(head + one =~= value@.subrange(0, i + 1));
            assert(one.subrange(1, 1) =~= Seq::<char>::empty());
            assert(attr_escape(one.subrange(1, 1)) =~= Seq::<char>::empty());
            assert(attr_escape_char(value@[i as int]) + Seq::<char>::empty() =~= attr_escape_char(
                value@[i as int],
            ));
            assert(attr_escape(one) =~= attr_escape_char(value@[i as int]));
            assert(out@ =~= old(out)@ + attr_escape(value@.subrange(0, i + 1)));
        }
        i = i + 1;
    }
    proof {
        assert(value@.subrange(0, value@.len() as int) =~= value@);
    }
}

/// Appends one attribute list as ` name="value"` pairs.
fn emit_attrs(attrs: &Vec<(String, String)>, out: &mut Vec<char>)
    ensures
        final(out)@ == old(out)@ + attrs_out(attr_models(attrs@)),
{
    let ghost all = attr_models(attrs@);
    proof {
        assert(all.subrange(0, 0) =~= Seq::<(Seq<char>, Seq<char>)>::empty());
    }
    let mut i: usize = 0;
    while i < attrs.len()
        invariant
            0 <= i <= attrs@.len(),
            all == attr_models(attrs@),
            all.len() == attrs@.len(),
            out@ == old(out)@ + attrs_out(all.subrange(0, i as int)),
        decreases attrs@.len() - i,
    {
        let entry = &attrs[i];
        out.push(' ');
        push_str_chars(out, entry.0.as_str());
        out.push('=');
        out.push('"');
        emit_attr_value(&entry.1, out);
        out.push('"');
        proof {
            let head = all.subrange(0, i as int);
            let one = seq![all[i as int]];
            lemma_attrs_out_concat(head, one);
            assert(head + one =~= all.subrange(0, i + 1));
            assert(all[i as int] == (attrs@[i as int].0@, attrs@[i as int].1@));
            assert(one.subrange(1, 1) =~= Seq::<(Seq<char>, Seq<char>)>::empty());
            assert(attrs_out(one.subrange(1, 1)) =~= Seq::<char>::empty());
            let head_out = seq![' '] + all[i as int].0 + seq!['='] + seq!['"'] + attr_escape(
                all[i as int].1,
            ) + seq!['"'];
            assert(head_out + Seq::<char>::empty() =~= head_out);
            assert(attrs_out(one) =~= head_out);
            assert(out@ =~= old(out)@ + attrs_out(all.subrange(0, i + 1)));
        }
        i = i + 1;
    }
    proof {
        assert(all.subrange(0, all.len() as int) =~= all);
    }
}

/// Appends the opening wrapper of a registered markup rule.
fn emit_rule_open(element: &String, attrs: &Vec<(String, String)>, out: &mut Vec<char>)
    ensures
        final(out)@ == old(out)@ + (seq!['<'] + element@ + attrs_out(attr_models(attrs@))
            + seq!['>']),
{
    out.push('<');
    push_str_chars(out, element.as_str());
    emit_attrs(attrs, out);
    out.push('>');
    proof {
        assert(old(out)@.push('<') =~= old(out)@ + seq!['<']);
        assert(out@ =~= old(out)@ + (seq!['<'] + element@ + attrs_out(attr_models(attrs@))
            + seq!['>']));
    }
}

/// Appends the closing wrapper of a registered markup rule.
fn emit_rule_close(element: &String, out: &mut Vec<char>)
    ensures
        final(out)@ == old(out)@ + (seq!['<', '/'] + element@ + seq!['>']),
{
    out.push('<');
    out.push('/');
    push_str_chars(out, element.as_str());
    out.push('>');
    proof {
        assert(out@ =~= old(out)@ + (seq!['<', '/'] + element@ + seq!['>']));
    }
}

/// First-match search of a rule table; yields the index.
fn find_rule(table: &Vec<(ExtensionTag, String, Vec<(String, String)>)>, tag: &ExtensionTag) -> (r:
    Option<usize>)
    ensures
        match r {
            Some(i) => i < table@.len() && rule_lookup(rule_models(table@), tag@) == Some(
                (table@[i as int].1@, attr_models(table@[i as int].2@)),
            ),
            None => rule_lookup(rule_models(table@), tag@) is None,
        },
{
    let ghost models = rule_models(table@);
    proof {
        assert(models.subrange(0, models.len() as int) =~= models);
    }
    let mut i: usize = 0;
    while i < table.len()
        invariant
            0 <= i <= table@.len(),
            models == rule_models(table@),
            models.len() == table@.len(),
            rule_lookup(models, tag@) == rule_lookup(
                models.subrange(i as int, models.len() as int),
                tag@,
            ),
        decreases table@.len() - i,
    {
        let entry = &table[i];
        proof {
            assert(models[i as int] == rule_model(table@[i as int]));
        }
        if tag.matches(&entry.0) {
            proof {
                let rest = models.subrange(i as int, models.len() as int);
                assert(rest[0] == models[i as int]);
            }
            return Some(i);
        }
        proof {
            let rest = models.subrange(i as int, models.len() as int);
            assert(rest[0] == models[i as int]);
            assert(rest.subrange(1, rest.len() as int) =~= models.subrange(
                i + 1,
                models.len() as int,
            ));
        }
        i = i + 1;
    }
    proof {
        assert(models.subrange(models.len() as int, models.len() as int) =~= Seq::<
            (Seq<char>, Seq<char>, Seq<(Seq<char>, Seq<char>)>),
        >::empty());
    }
    None
}

/// The structured-markup backend: fixed wrappers for paragraphs and
/// the builtin tags, character escaping for text, and caller-extended
/// tag tables for everything else.  A registered rule is a fixed
/// (wrapper name, attribute pairs) value — deliberately a static
/// mapping keyed by tag, not a function of the node's content.
pub struct HtmlEmitter {
    extension_element_map: Vec<(ExtensionTag, String, Vec<(String, String)>)>,
    extension_block_map: Vec<(ExtensionTag, String, Vec<(String, String)>)>,
    extension_blocks_map: Vec<(ExtensionTag, String, Vec<(String, String)>)>,
}

impl HtmlEmitter {
    /// The registered element rules, newest first.
    pub closed spec fn element_rules(&self) -> Seq<
        (Seq<char>, Seq<char>, Seq<(Seq<char>, Seq<char>)>),
    > {
        rule_models(self.extension_element_map@)
    }

    /// The registered block rules, newest first.
    pub closed spec fn block_rules(&self) -> Seq<
        (Seq<char>, Seq<char>, Seq<(Seq<char>, Seq<char>)>),
    > {
        rule_models(self.extension_block_map@)
    }

    /// The registered block-group rules, newest first.
    pub closed spec fn blocks_rules(&self) -> Seq<
        (Seq<char>, Seq<char>, Seq<(Seq<char>, Seq<char>)>),
    > {
        rule_models(self.extension_blocks_map@)
    }

    pub fn new() -> (e: HtmlEmitter)
        ensures
            e.element_rules().len() == 0,
            e.block_rules().len() == 0,
            e.blocks_rules().len() == 0,
    {
        HtmlEmitter {
            extension_element_map: Vec::new(),
            extension_block_map: Vec::new(),
            extension_blocks_map: Vec::new(),
        }
    }

    /// Registers markup for an extension element tag: the wrapper
    /// element name and its attribute name/value pairs, the value
    /// emitted between double quotes with quotes and backslashes
    /// backslash-escaped.  A newer registration for the same tag
    /// shadows an older one.
    pub fn tagged_element(&mut self, tag: ExtensionTag, element: String, attributes: Vec<(String, String)>)
        ensures
            final(self).element_rules() == seq![
                (tag@, element@, attr_models(attributes@)),
            ] + old(self).element_rules(),
            final(self).block_rules() == old(self).block_rules(),
            final(self).blocks_rules() == old(self).blocks_rules(),
    {
        self.extension_element_map.insert(0, (tag, element, attributes));
        proof {
            assert(final(self).element_rules() =~= seq![
                (tag@, element@, attr_models(attributes@)),
            ] + old(self).element_rules());
        }
    }

    /// Registers markup for an extension block tag.
    pub fn tagged_block(&mut self, tag: ExtensionTag, element: String, attributes: Vec<(String, String)>)
        ensures
            final(self).block_rules() == seq![
                (tag@, element@, attr_models(attributes@)),
            ] + old(self).block_rules(),
            final(self).element_rules() == old(self).element_rules(),
            final(self).blocks_rules() == old(self).blocks_rules(),
    {
        self.extension_block_map.insert(0, (tag, element, attributes));
        proof {
            assert(final(self).block_rules() =~= seq![
                (tag@, element@, attr_models(attributes@)),
            ] + old(self).block_rules());
        }
    }

    /// Registers markup for an extension block-group tag.
    pub fn tagged_blocks(&mut self, tag: ExtensionTag, element: String, attributes: Vec<(String, String)>)
        ensures
            final(self).blocks_rules() == seq![
                (tag@, element@, attr_models(attributes@)),
            ] + old(self).blocks_rules(),
            final(self).element_rules() == old(self).element_rules(),
            final(self).block_rules() == old(self).block_rules(),
    {
        self.extension_blocks_map.insert(0, (tag, element, attributes));
        proof {
            assert(final(self).blocks_rules() =~= seq![
                (tag@, element@, attr_models(attributes@)),
            ] + old(self).blocks_rules());
        }
    }

    /// Appends one text, escaped character by character.
    fn emit_text(&self, text: &String, out: &mut Vec<char>)
        ensures
            final(out)@ == old(out)@ + escape(text@),
    {
        let s = text.as_str();
        let n = s.unicode_len();
        proof {
            assert(text@.subrange(0, 0) =~= Seq::<char>::empty());
        }
        let mut i: usize = 0;
        while i < n
            invariant
                0 <= i <= n,
                n as nat == text@.len(),
                s@ == text@,
                out@ == old(out)@ + escape(text@.subrange(0, i as int)),
            decreases n - i,
        {
            let c = s.get_char(i);
            if c == '\'' {
                push_str_chars(out, "&apos;");
            } else if c == '"' {
                push_str_chars(out, "&quot;");
            } else if c == '<' {
                push_str_chars(out, "&lt;");
            } else if c == '>' {
                push_str_chars(out, "&gt;");
            } else if c == '&' {
                push_str_chars(out, "&amp;");
            } else {
                out.push(c);
            }
            proof {
                let head = text@.subrange(0, i as int);
                let one = seq![text@[i as int]];
                lemma_escape_concat(head, one);
                assert(head + one =~= text@.subrange(0, i + 1));
                assert(one.subrange(1, 1) =~= Seq::<char>::empty());
                assert(escape(one.subrange(1, 1)) =~= Seq::<char>::empty());
                assert(escape_char(text@[i as int]) + Seq::<char>::empty() =~= escape_char(
                    text@[i as int],
                ));
                assert(escape(one) =~= escape_char(text@[i as int]));
                assert(out@ =~= old(out)@ + escape(text@.subrange(0, i + 1)));
            }
            i = i + 1;
        }
        proof {
            assert(text@.subrange(0, text@.len() as int) =~= text@);
        }
    }

    /// Appends one element's markup.
    fn emit_element(&self, element: &Element, out: &mut Vec<char>)
        ensures
            final(out)@ == old(out)@ + html_element_out(element@, self.element_rules()),
        decreases element, 0int,
    {
        match element {
            Element::Text(t) => self.emit_text(t, out),
            Element::ExtensionElement(tag, inner) => {
                self.emit_extension_element(tag, inner, out);
            },
        }
    }

    /// Appends one extension element's markup: fixed wrappers for the
    /// builtin emphasis tags, the registered element table otherwise,
    /// with the bare wrapped element as the fallback.
    fn emit_extension_element(&self, tag: &ExtensionTag, element: &Element, out: &mut Vec<char>)
        ensures
            final(out)@ == old(out)@ + html_element_out(
                ElementModel::ExtensionElement(tag@, Box::new(element@)),
                self.element_rules(),
            ),
        decreases element, 1int,
    {
        if tag.matches(&bold_tag()) {
            push_str_chars(out, "<strong>");
            self.emit_element(element, out);
            push_str_chars(out, "</strong>");
            proof {
                assert(out@ =~= old(out)@ + ("<strong>"@ + html_element_out(
                    element@,
                    self.element_rules(),
                ) + "</strong>"@));
            }
        } else if tag.matches(&italics_tag()) {
            push_str_chars(out, "<em>");
            self.emit_element(element, out);
            push_str_chars(out, "</em>");
            proof {
                assert(out@ =~= old(out)@ + ("<em>"@ + html_element_out(
                    element@,
                    self.element_rules(),
                ) + "</em>"@));
            }
        } else {
            match find_rule(&self.extension_element_map, tag) {
                Some(i) => {
                    let entry = &self.extension_element_map[i];
                    emit_rule_open(&entry.1, &entry.2, out);
                    self.emit_element(element, out);
                    emit_rule_close(&entry.1, out);
                    proof {
                        assert(out@ =~= old(out)@ + (seq!['<'] + entry.1@ + attrs_out(
                            attr_models(entry.2@),
                        ) + seq!['>'] + html_element_out(element@, self.element_rules()) + seq![
                            '<',
                            '/',
                        ] + entry.1@ + seq!['>']));
                    }
                },
                None => {
                    self.emit_element(element, out);
                },
            }
        }
    }

    /// Appends the markup of a sequence of elements, in order.
    fn emit_elements(&self, elements: &Vec<Element>, out: &mut Vec<char>)
        ensures
            final(out)@ == old(out)@ + html_elements_out(
                element_models(elements@),
                self.element_rules(),
            ),
    {
        let ghost all = element_models(elements@);
        proof {
            assert(all.subrange(0, 0) =~= Seq::<ElementModel>::empty());
        }
        let mut i: usize = 0;
        while i < elements.len()
            invariant
                0 <= i <= elements@.len(),
                all == element_models(elements@),
                all.len() == elements@.len(),
                out@ == old(out)@ + html_elements_out(
                    all.subrange(0, i as int),
                    self.element_rules(),
                ),
            decreases elements@.len() - i,
        {
            self.emit_element(&elements[i], out);
            proof {
                let head = all.subrange(0, i as int);
                let one = seq![all[i as int]];
                lemma_html_elements_out_concat(head, one, self.element_rules());
                assert(head + one =~= all.subrange(0, i + 1));
                assert(all[i as int] == elements@[i as int]@);
                assert(one.subrange(1, 1) =~= Seq::<ElementModel>::empty());
                assert(html_elements_out(one.subrange(1, 1), self.element_rules()) =~= Seq::<
                    char,
                >::empty());
                assert(html_element_out(all[i as int], self.element_rules()) + Seq::<
                    char,
                >::empty() =~= html_element_out(all[i as int], self.element_rules()));
                assert(html_elements_out(one, self.element_rules()) =~= html_element_out(
                    all[i as int],
                    self.element_rules(),
                ));
                assert(out@ =~= old(out)@ + html_elements_out(
                    all.subrange(0, i + 1),
                    self.element_rules(),
                ));
            }
            i = i + 1;
        }
        proof {
            assert(all.subrange(0, all.len() as int) =~= all);
        }
    }
}

impl Emitter for HtmlEmitter {
    open spec fn block_out(&self, b: BlockModel, prior: Seq<char>) -> Seq<char> {
        html_block_out(b, self.element_rules(), self.block_rules(), self.blocks_rules())
    }

    fn emit_block(&self, block: &Block, out: &mut Vec<char>)
        decreases block, 1int,
    {
        match block {
            Block::Paragraph(es) => {
                push_str_chars(out, "<p>\n  ");
                self.emit_elements(es, out);
                push_str_chars(out, "\n</p>\n");
                proof {
                    assert(out@ =~= old(out)@ + ("<p>\n  "@ + html_elements_out(
                        element_models(es@),
                        self.element_rules(),
                    ) + "\n</p>\n"@));
                }
            },
            Block::ExtensionBlock(tag, es) => {
                if tag.matches(&list_item_tag()) {
                    push_str_chars(out, "  <li>\n    ");
                    self.emit_elements(es, out);
                    push_str_chars(out, "\n  </li>\n");
                    proof {
                        assert(out@ =~= old(out)@ + ("  <li>\n    "@ + html_elements_out(
                            element_models(es@),
                            self.element_rules(),
                        ) + "\n  </li>\n"@));
                    }
                } else {
                    match find_rule(&self.extension_block_map, tag) {
                        Some(i) => {
                            let entry = &self.extension_block_map[i];
                            emit_rule_open(&entry.1, &entry.2, out);
                            self.emit_elements(es, out);
                            emit_rule_close(&entry.1, out);
                            proof {
                                assert(out@ =~= old(out)@ + (seq!['<'] + entry.1@ + attrs_out(
                                    attr_models(entry.2@),
                                ) + seq!['>'] + html_elements_out(
                                    element_models(es@),
                                    self.element_rules(),
                                ) + seq!['<', '/'] + entry.1@ + seq!['>']));
                            }
                        },
                        None => {
                            push_str_chars(out, "<div data-publ-tag=\"");
                            push_str_chars(out, tag.0);
                            push_str_chars(out, "\">\n  ");
                            self.emit_elements(es, out);
                            push_str_chars(out, "\n</div>\n");
                            proof {
                                assert(out@ =~= old(out)@ + ("<div data-publ-tag=\""@ + tag@
                                    + "\">\n  "@ + html_elements_out(
                                    element_models(es@),
                                    self.element_rules(),
                                ) + "\n</div>\n"@));
                            }
                        },
                    }
                }
            },
            Block::ExtensionBlocks(tag, bs) => {
                let ghost all = block_models(bs@);
                proof {
                    lemma_block_models_len(bs@);
                }
                if tag.matches(&list_tag()) {
                    push_str_chars(out, "<ul>\n");
                    self.emit_block_seq(bs, out, Ghost(*block));
                    push_str_chars(out, "</ul>\n");
                    proof {
                        assert(out@ =~= old(out)@ + ("<ul>\n"@ + html_blocks_out(
                            all,
                            self.element_rules(),
                            self.block_rules(),
                            self.blocks_rules(),
                        ) + "</ul>\n"@));
                    }
                } else {
                    match find_rule(&self.extension_blocks_map, tag) {
                        Some(i) => {
                            let entry = &self.extension_blocks_map[i];
                            emit_rule_open(&entry.1, &entry.2, out);
                            self.emit_block_seq(bs, out, Ghost(*block));
                            emit_rule_close(&entry.1, out);
                            proof {
                                assert(out@ =~= old(out)@ + (seq!['<'] + entry.1@ + attrs_out(
                                    attr_models(entry.2@),
                                ) + seq!['>'] + html_blocks_out(
                                    all,
                                    self.element_rules(),
                                    self.block_rules(),
                                    self.blocks_rules(),
                                ) + seq!['<', '/'] + entry.1@ + seq!['>']));
                            }
                        },
                        None => {
                            self.emit_block_seq(bs, out, Ghost(*block));
                        },
                    }
                }
            },
        }
    }
}

impl HtmlEmitter {
    /// Appends the markup of a sequence of nested blocks, in order.
    fn emit_block_seq(&self, bs: &Vec<Block>, out: &mut Vec<char>, parent: Ghost<Block>)
        requires
            decreases_to!(parent@ => bs@),
        ensures
            final(out)@ == old(out)@ + html_blocks_out(
                block_models(bs@),
                self.element_rules(),
                self.block_rules(),
                self.blocks_rules(),
            ),
        decreases parent@, 0int,
    {
        let ghost all = block_models(bs@);
        proof {
            lemma_block_models_len(bs@);
            assert(all.subrange(0, 0) =~= Seq::<BlockModel>::empty());
        }
        let mut i: usize = 0;
        while i < bs.len()
            invariant
                0 <= i <= bs@.len(),
                all == block_models(bs@),
                all.len() == bs@.len(),
                forall|k: int| 0 <= k < bs@.len() ==> all[k] == bs@[k]@,
                decreases_to!(parent@ => bs@),
                out@ == old(out)@ + html_blocks_out(
                    all.subrange(0, i as int),
                    self.element_rules(),
                    self.block_rules(),
                    self.blocks_rules(),
                ),
            decreases bs@.len() - i,
        {
            proof {
                assert(decreases_to!(bs@ => bs@[i as int]));
                assert(decreases_to!(parent@ => bs@[i as int]));
            }
            self.emit_block(&bs[i], out);
            proof {
                let head = all.subrange(0, i as int);
                let one = seq![all[i as int]];
                lemma_html_blocks_out_concat(
                    head,
                    one,
                    self.element_rules(),
                    self.block_rules(),
                    self.blocks_rules(),
                );
                assert(head + one =~= all.subrange(0, i + 1));
                assert(one.subrange(1, 1) =~= Seq::<BlockModel>::empty());
                assert(html_blocks_out(
                    one.subrange(1, 1),
                    self.element_rules(),
                    self.block_rules(),
                    self.blocks_rules(),
                ) =~= Seq::<char>::empty());
                assert(html_block_out(
                    all[i as int],
                    self.element_rules(),
                    self.block_rules(),
                    self.blocks_rules(),
                ) + Seq::<char>::empty() =~= html_block_out(
                    all[i as int],
                    self.element_rules(),
                    self.block_rules(),
                    self.blocks_rules(),
                ));
                assert(html_blocks_out(
                    one,
                    self.element_rules(),
                    self.block_rules(),
                    self.blocks_rules(),
                ) =~= html_block_out(
                    all[i as int],
                    self.element_rules(),
                    self.block_rules(),
                    self.blocks_rules(),
                ));
                assert(out@ =~= old(out)@ + html_blocks_out(
                    all.subrange(0, i + 1),
                    self.element_rules(),
                    self.block_rules(),
                    self.blocks_rules(),
                ));
            }
            i = i + 1;
        }
        proof {
            assert(all.subrange(0, all.len() as int) =~= all);
        }
    }
}


/// The plain text one element yields: text verbatim, an extension
/// element as its bare wrapped element.
pub open spec fn text_element_out(e: ElementModel) -> Seq<char>
    decreases e,
{
    match e {
        ElementModel::Text(t) => t,
        ElementModel::ExtensionElement(tag, inner) => text_element_out(*inner),
    }
}

/// The plain text a sequence of elements yields, in order.
pub open spec fn text_elements_out(es: Seq<ElementModel>) -> Seq<char>
    decreases es.len(),
{
    if es.len() == 0 {
        Seq::empty()
    } else {
        text_element_out(es[0]) + text_elements_out(es.subrange(1, es.len() as int))
    }
}

pub proof fn lemma_text_elements_out_concat(a: Seq<ElementModel>, b: Seq<ElementModel>)
    ensures
        text_elements_out(a + b) == text_elements_out(a) + text_elements_out(b),
    decreases a.len(),
{
    if a.len() == 0 {
        assert(a + b =~= b);
        assert(text_elements_out(a) + text_elements_out(b) =~= text_elements_out(b));
    } else {
        let t = a.subrange(1, a.len() as int);
        lemma_text_elements_out_concat(t, b);
        assert((a + b).subrange(1, (a + b).len() as int) =~= t + b);
        assert(text_element_out(a[0]) + (text_elements_out(t) + text_elements_out(b))
            =~= (text_element_out(a[0]) + text_elements_out(t)) + text_elements_out(b));
    }
}

/// The plain-text backend: paragraph content is concatenated
/// verbatim, paragraphs are separated by exactly one newline, and
/// any non-paragraph block is silently omitted.
pub struct TextEmitter {}

impl TextEmitter {
    pub fn new() -> (e: TextEmitter) {
        TextEmitter {  }
    }

    /// Appends one element's text.
    fn emit_element(&self, element: &Element, out: &mut Vec<char>)
        ensures
            final(out)@ == old(out)@ + text_element_out(element@),
        decreases element,
    {
        match element {
            Element::Text(t) => push_str_chars(out, t.as_str()),
            Element::ExtensionElement(tag, inner) => self.emit_element(inner, out),
        }
    }

    /// Appends the text of a sequence of elements, in order.
    fn emit_elements(&self, elements: &Vec<Element>, out: &mut Vec<char>)
        ensures
            final(out)@ == old(out)@ + text_elements_out(element_models(elements@)),
    {
        let ghost all = element_models(elements@);
        proof {
            assert(all.subrange(0, 0) =~= Seq::<ElementModel>::empty());
        }
        let mut i: usize = 0;
        while i < elements.len()
            invariant
                0 <= i <= elements@.len(),
                all == element_models(elements@),
                all.len() == elements@.len(),
                out@ == old(out)@ + text_elements_out(all.subrange(0, i as int)),
            decreases elements@.len() - i,
        {
            self.emit_element(&elements[i], out);
            proof {
                let head = all.subrange(0, i as int);
                let one = seq![all[i as int]];
                lemma_text_elements_out_concat(head, one);
                assert(head + one =~= all.subrange(0, i + 1));
                assert(all[i as int] == elements@[i as int]@);
                assert(one.subrange(1, 1) =~= Seq::<ElementModel>::empty());
                assert(text_elements_out(one.subrange(1, 1)) =~= Seq::<char>::empty());
                assert(text_element_out(all[i as int]) + Seq::<char>::empty() =~= text_element_out(
                    all[i as int],
                ));
                assert(text_elements_out(one) =~= text_element_out(all[i as int]));
                assert(out@ =~= old(out)@ + text_elements_out(all.subrange(0, i + 1)));
            }
            i = i + 1;
        }
        proof {
            assert(all.subrange(0, all.len() as int) =~= all);
        }
    }
}

impl Emitter for TextEmitter {
    open spec fn block_out(&self, b: BlockModel, prior: Seq<char>) -> Seq<char> {
        match b {
            BlockModel::Paragraph(es) => (if prior.len() > 0 {
                seq!['\n']
            } else {
                Seq::empty()
            }) + text_elements_out(es) + seq!['\n'],
            BlockModel::ExtensionBlocks(tag, bs) => Seq::empty(),
            BlockModel::ExtensionBlock(tag, es) => Seq::empty(),
        }
    }

    fn emit_block(&self, block: &Block, out: &mut Vec<char>) {
        match block {
            Block::Paragraph(es) => {
                if out.len() > 0 {
                    out.push('\n');
                }
                self.emit_elements(es, out);
                out.push('\n');
                proof {
                    assert(out@ =~= old(out)@ + ((if old(out)@.len() > 0 {
                        seq!['\n']
                    } else {
                        Seq::<char>::empty()
                    }) + text_elements_out(element_models(es@)) + seq!['\n']));
                }
            },
            Block::ExtensionBlocks(tag, bs) => {
                proof {
                    assert(out@ =~= old(out)@ + Seq::<char>::empty());
                }
            },
            Block::ExtensionBlock(tag, es) => {
                proof {
                    assert(out@ =~= old(out)@ + Seq::<char>::empty());
                }
            },
        }
    }
}


/// `needle` occurs contiguously somewhere in `hay`.
pub open spec fn contains_seq(hay: Seq<char>, needle: Seq<char>) -> bool {
    exists|k: int|
        0 <= k && k + needle.len() <= hay.len() && #[trigger] hay.subrange(k, k + needle.len())
            == needle
}

/// No raw apostrophe, double quote, `<` or `>` survives escaping:
/// each is replaced by its named entity, and the entities themselves
/// are made of other characters.
pub proof fn lemma_escape_no_raw_specials(s: Seq<char>)
    ensures
        forall|j: int|
            0 <= j < escape(s).len() ==> !(#[trigger] escape(s)[j] == '\'' || escape(s)[j] == '"'
                || escape(s)[j] == '<' || escape(s)[j] == '>'),
    decreases s.len(),
{
    reveal_strlit("&apos;");
    reveal_strlit("&quot;");
    reveal_strlit("&lt;");
    reveal_strlit("&gt;");
    reveal_strlit("&amp;");
    if s.len() > 0 {
        let t = s.subrange(1, s.len() as int);
        lemma_escape_no_raw_specials(t);
        let head = escape_char(s[0]);
        assert(forall|j: int|
            0 <= j < head.len() ==> !(#[trigger] head[j] == '\'' || head[j] == '"' || head[j]
                == '<' || head[j] == '>'));
        assert(forall|j: int| 0 <= j < escape(s).len() ==> escape(s)[j] == if j < head.len() {
            head[j]
        } else {
            escape(t)[j - head.len()]
        });
    }
}

/// For every character of the input, its escaped form occurs
/// contiguously in the escaped output; in particular, for each
/// special character the output contains the corresponding named
/// entity.
pub proof fn lemma_escape_emits_entity(s: Seq<char>, i: int)
    requires
        0 <= i < s.len(),
    ensures
        contains_seq(escape(s), escape_char(s[i])),
{
    let before = s.subrange(0, i);
    let rest = s.subrange(i, s.len() as int);
    assert(before + rest =~= s);
    lemma_escape_concat(before, rest);
    let k = escape(before).len() as int;
    assert(escape(rest) == escape_char(s[i]) + escape(rest.subrange(1, rest.len() as int)));
    let e = escape_char(s[i]);
    assert(escape(s).subrange(k, k + e.len()) =~= e);
}

} // verus!
