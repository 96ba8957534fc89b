//! The document AST: blocks, inline elements, tags, and the parse
//! error, together with their mathematical models.

use vstd::prelude::*;

verus! {

use vstd::string::StrSliceExecFns;

/// Character-for-character equality of two string slices.
pub fn str_eq(a: &str, b: &str) -> (r: bool)
    ensures
        r == (a@ == b@),
{
    let la = a.unicode_len();
    let lb = b.unicode_len();
    if la != lb {
        return false;
    }
    let mut i: usize = 0;
    while i < la
        invariant
            0 <= i <= la,
            la as nat == a@.len(),
            lb as nat == b@.len(),
            la == lb,
            forall|k: int| 0 <= k < i ==> a@[k] == b@[k],
        decreases la - i,
    {
        if a.get_char(i) != b.get_char(i) {
            return false;
        }
        i = i + 1;
    }
    proof {
        assert(a@ =~= b@);
    }
    true
}

/// Element-for-element equality of two character slices.
pub fn char_slice_eq(a: &[char], b: &[char]) -> (r: bool)
    ensures
        r == (a@ == b@),
{
    let la = a.len();
    let lb = b.len();
    if la != lb {
        return false;
    }
    let mut i: usize = 0;
    while i < la
        invariant
            0 <= i <= la,
            la as nat == a@.len(),
            lb as nat == b@.len(),
            la == lb,
            forall|k: int| 0 <= k < i ==> a@[k] == b@[k],
        decreases la - i,
    {
        if a[i] != b[i] {
            return false;
        }
        i = i + 1;
    }
    proof {
        assert(a@ =~= b@);
    }
    true
}

/// Opaque identifier distinguishing which grammar rule (builtin or
/// extension) produced an AST node; value-equal by its name.  Tags of
/// distinct registered extensions must be distinct, or emission
/// becomes ambiguous.
#[derive(Debug, PartialEq, Eq, Hash, Clone, Copy)]
pub struct ExtensionTag(pub &'static str);

impl View for ExtensionTag {
    type V = Seq<char>;

    open spec fn view(&self) -> Seq<char> {
        self.0@
    }
}

impl ExtensionTag {
    /// Whether two tags carry the same name.  The derived `==` agrees
    /// with this, but derived impls are opaque to verification, so
    /// verified code compares tags through here.
    pub fn matches(&self, other: &ExtensionTag) -> (r: bool)
        ensures
            r == (self@ == other@),
    {
        str_eq(self.0, other.0)
    }
}

/// Inline content unit within a block: plain text, or content an
/// extension decorated with its tag.  Recursive: an extension element
/// may wrap another extension element.
#[derive(Debug, PartialEq)]
pub enum Element {
    Text(String),
    ExtensionElement(ExtensionTag, Box<Element>),
}

/// Mathematical model of an [`Element`].
pub enum ElementModel {
    Text(Seq<char>),
    ExtensionElement(Seq<char>, Box<ElementModel>),
}

impl View for Element {
    type V = ElementModel;

    open spec fn view(&self) -> ElementModel
        decreases self,
    {
        match self {
            Element::Text(s) => ElementModel::Text(s@),
            Element::ExtensionElement(t, e) => ElementModel::ExtensionElement(
                t@,
                Box::new((**e).view()),
            ),
        }
    }
}

/// The models of a sequence of elements, in order.
pub open spec fn element_models(s: Seq<Element>) -> Seq<ElementModel> {
    s.map(|i: int, e: Element| e@)
}

/// Top-level structural unit of a document: a paragraph, a single
/// extension-defined block of elements, or an extension-defined group
/// of nested blocks.
#[derive(Debug, PartialEq)]
pub enum Block {
    Paragraph(Vec<Element>),
    ExtensionBlocks(ExtensionTag, Vec<Block>),
    ExtensionBlock(ExtensionTag, Vec<Element>),
}

/// Mathematical model of a [`Block`].
pub enum BlockModel {
    Paragraph(Seq<ElementModel>),
    ExtensionBlocks(Seq<char>, Seq<BlockModel>),
    ExtensionBlock(Seq<char>, Seq<ElementModel>),
}

impl View for Block {
    type V = BlockModel;

    open spec fn view(&self) -> BlockModel
        decreases self,
    {
        match self {
            Block::Paragraph(es) => BlockModel::Paragraph(element_models(es@)),
            Block::ExtensionBlocks(t, bs) => BlockModel::ExtensionBlocks(t@, block_models(bs@)),
            Block::ExtensionBlock(t, es) => BlockModel::ExtensionBlock(t@, element_models(es@)),
        }
    }
}

/// The models of a sequence of blocks, in order.
pub open spec fn block_models(s: Seq<Block>) -> Seq<BlockModel>
    decreases s,
{
    if s.len() == 0 {
        Seq::empty()
    } else {
        seq![s[0]@] + block_models(s.subrange(1, s.len() as int))
    }
}

pub proof fn lemma_block_models_len(s: Seq<Block>)
    ensures
        block_models(s).len() == s.len(),
        forall|i: int| 0 <= i < s.len() ==> block_models(s)[i] == s[i]@,
    decreases s,
{
    if s.len() > 0 {
        let tail = s.subrange(1, s.len() as int);
        lemma_block_models_len(tail);
        assert(block_models(s) == seq![s[0]@] + block_models(tail));
        assert forall|i: int| 0 <= i < s.len() implies block_models(s)[i] == s[i]@ by {
            if i > 0 {
                assert(block_models(s)[i] == block_models(tail)[i - 1]);
                assert(tail[i - 1] == s[i]);
            }
        }
    }
}

pub proof fn lemma_block_models_push(s: Seq<Block>, b: Block)
    ensures
        block_models(s.push(b)) == block_models(s) + seq![b@],
{
    lemma_block_models_len(s.push(b));
    lemma_block_models_len(s);
    assert(block_models(s.push(b)) =~= block_models(s) + seq![b@]);
}

/// The single core-level error: a block was requested with no
/// remaining characters.  It unwinds the whole parse; no partial AST
/// or output is returned.
#[derive(Debug, PartialEq, Eq, Clone, Copy)]
pub enum ParseError {
    UnexpectedEndOfFile,
}

impl ParseError {
    /// A human-readable description of the error.
    pub fn message(&self) -> (m: &'static str)
        ensures
            m@ == "Unexpected end of file."@,
    {
        "Unexpected end of file."
    }
}

} // verus!
