//! The Notion block objects that a markdown document becomes, and their
//! mathematical models.
use vstd::prelude::*;

verus! {

/// The kind of a Notion block.
#[derive(Debug, Clone, Copy, PartialEq, Eq, Structural)]
pub enum BlockType {
    Paragraph,
    Heading1,
    Heading2,
    Heading3,
    BulletedListItem,
    NumberedListItem,
    ToDo,
    Toggle,
    Code,
    Quote,
    Divider,
    Callout,
}

/// A Notion block. Exactly one of the content fields is meant to be filled,
/// the one that matches `block_type`.
#[derive(Debug)]
pub struct Block {
    pub object: String,
    pub block_type: BlockType,
    pub paragraph: Option<ParagraphBlock>,
    pub heading_1: Option<HeadingBlock>,
    pub heading_2: Option<HeadingBlock>,
    pub heading_3: Option<HeadingBlock>,
    pub bulleted_list_item: Option<ListItemBlock>,
    pub numbered_list_item: Option<ListItemBlock>,
    pub to_do: Option<ToDoBlock>,
    pub code: Option<CodeBlock>,
    pub quote: Option<QuoteBlock>,
    pub divider: Option<DividerBlock>,
}

#[derive(Debug)]
pub struct ParagraphBlock {
    pub rich_text: Vec<RichText>,
    pub children: Option<Vec<Block>>,
    pub color: Option<String>,
}

#[derive(Debug)]
pub struct HeadingBlock {
    pub rich_text: Vec<RichText>,
    pub children: Option<Vec<Block>>,
    pub color: Option<String>,
    pub is_toggleable: Option<bool>,
}

#[derive(Debug)]
pub struct ListItemBlock {
    pub rich_text: Vec<RichText>,
    pub children: Option<Vec<Block>>,
    pub color: Option<String>,
}

#[derive(Debug)]
pub struct ToDoBlock {
    pub rich_text: Vec<RichText>,
    pub children: Option<Vec<Block>>,
    pub checked: bool,
    pub color: Option<String>,
}

#[derive(Debug, Clone)]
pub struct CodeBlock {
    pub rich_text: Vec<RichText>,
    pub language: String,
    pub caption: Option<Vec<RichText>>,
}

#[derive(Debug)]
pub struct QuoteBlock {
    pub rich_text: Vec<RichText>,
    pub children: Option<Vec<Block>>,
    pub color: Option<String>,
}

/// A divider carries no content.
#[derive(Debug, Clone, Copy, PartialEq, Eq, Structural)]
pub struct DividerBlock {}

/// The kind of a rich-text run.
#[derive(Debug, Clone, Copy, PartialEq, Eq, Structural)]
pub enum RichTextType {
    Text,
    Mention,
    Equation,
}

/// One run of styled text.
#[derive(Debug, Clone)]
pub struct RichText {
    pub text_type: RichTextType,
    pub text: Option<TextContent>,
    pub annotations: Option<Annotations>,
    pub plain_text: Option<String>,
    pub href: Option<String>,
}

#[derive(Debug, Clone)]
pub struct TextContent {
    pub content: String,
    pub link: Option<Link>,
}

#[derive(Debug, Clone)]
pub struct Link {
    pub url: String,
}

/// The styling of a rich-text run.
#[derive(Debug, Clone)]
pub struct Annotations {
    pub bold: bool,
    pub italic: bool,
    pub strikethrough: bool,
    pub underline: bool,
    pub code: bool,
    pub color: String,
}

// ---------------------------------------------------------------------------
// Mathematical models
// ---------------------------------------------------------------------------

/// Model of `Annotations`.
#[verifier::ext_equal]
pub struct AnnotationsView {
    pub bold: bool,
    pub italic: bool,
    pub strikethrough: bool,
    pub underline: bool,
    pub code: bool,
    pub color: Seq<char>,
}

/// Model of `TextContent`: the text and the url of its link, if any.
#[verifier::ext_equal]
pub struct TextContentView {
    pub content: Seq<char>,
    pub link: Option<Seq<char>>,
}

/// Model of `RichText`.
#[verifier::ext_equal]
pub struct RichTextView {
    pub text_type: RichTextType,
    pub text: Option<TextContentView>,
    pub annotations: Option<AnnotationsView>,
    pub plain_text: Option<Seq<char>>,
    pub href: Option<Seq<char>>,
}

/// Model of the blocks made of rich text, children and a color:
/// paragraphs, list items and quotes.
#[verifier::ext_equal]
pub struct TextBlockView {
    pub rich_text: Seq<RichTextView>,
    pub children: Option<Seq<BlockView>>,
    pub color: Option<Seq<char>>,
}

/// Model of `HeadingBlock`.
#[verifier::ext_equal]
pub struct HeadingBlockView {
    pub rich_text: Seq<RichTextView>,
    pub children: Option<Seq<BlockView>>,
    pub color: Option<Seq<char>>,
    pub is_toggleable: Option<bool>,
}

/// Model of `ToDoBlock`.
#[verifier::ext_equal]
pub struct ToDoBlockView {
    pub rich_text: Seq<RichTextView>,
    pub children: Option<Seq<BlockView>>,
    pub checked: bool,
    pub color: Option<Seq<char>>,
}

/// Model of `CodeBlock`.
#[verifier::ext_equal]
pub struct CodeBlockView {
    pub rich_text: Seq<RichTextView>,
    pub language: Seq<char>,
    pub caption: Option<Seq<RichTextView>>,
}

/// Model of `Block`.
#[verifier::ext_equal]
pub struct BlockView {
    pub object: Seq<char>,
    pub block_type: BlockType,
    pub paragraph: Option<TextBlockView>,
    pub heading_1: Option<HeadingBlockView>,
    pub heading_2: Option<HeadingBlockView>,
    pub heading_3: Option<HeadingBlockView>,
    pub bulleted_list_item: Option<TextBlockView>,
    pub numbered_list_item: Option<TextBlockView>,
    pub to_do: Option<ToDoBlockView>,
    pub code: Option<CodeBlockView>,
    pub quote: Option<TextBlockView>,
    pub divider: Option<DividerBlock>,
}

/// The text of an optional string.
pub open spec fn string_option_view(s: Option<String>) -> Option<Seq<char>> {
    match s {
        Some(s) => Some(s@),
        None => None,
    }
}

impl View for Annotations {
    type V = AnnotationsView;

    open spec fn view(&self) -> AnnotationsView {
        AnnotationsView {
            bold: self.bold,
            italic: self.italic,
            strikethrough: self.strikethrough,
            underline: self.underline,
            code: self.code,
            color: self.color@,
        }
    }
}

impl View for Link {
    type V = Seq<char>;

    open spec fn view(&self) -> Seq<char> {
        self.url@
    }
}

impl View for TextContent {
    type V = TextContentView;

    open spec fn view(&self) -> TextContentView {
        TextContentView {
            content: self.content@,
            link: match self.link {
                Some(l) => Some(l@),
                None => None,
            },
        }
    }
}

impl View for RichText {
    type V = RichTextView;

    open spec fn view(&self) -> RichTextView {
        RichTextView {
            text_type: self.text_type,
            text: match self.text {
                Some(t) => Some(t@),
                None => None,
            },
            annotations: match self.annotations {
                Some(a) => Some(a@),
                None => None,
            },
            plain_text: string_option_view(self.plain_text),
            href: string_option_view(self.href),
        }
    }
}

/// The model of a sequence of runs, run by run.
pub open spec fn rich_texts_view(s: Seq<RichText>) -> Seq<RichTextView> {
    s.map_values(|r: RichText| r@)
}

/// The model of optional runs.
pub open spec fn rich_texts_option_view(s: Option<Vec<RichText>>) -> Option<Seq<RichTextView>> {
    match s {
        Some(v) => Some(rich_texts_view(v@)),
        None => None,
    }
}

/// Model of a sequence of blocks, block by block.
pub open spec fn blocks_view(s: Seq<Block>) -> Seq<BlockView>
    decreases s,
{
    if s.len() == 0 {
        Seq::empty()
    } else {
        blocks_view(s.subrange(0, s.len() - 1)).push(block_view(s[s.len() - 1]))
    }
}

/// The model of optional children.
pub open spec fn children_view(c: Option<Vec<Block>>) -> Option<Seq<BlockView>>
    decreases c,
{
    match c {
        Some(v) => Some(blocks_view(v@)),
        None => None,
    }
}

/// The model of a paragraph, its children included.
pub open spec fn paragraph_view(p: ParagraphBlock) -> TextBlockView
    decreases p,
{
    TextBlockView {
        rich_text: rich_texts_view(p.rich_text@),
        children: children_view(p.children),
        color: string_option_view(p.color),
    }
}

/// The model of a heading, its children included.
pub open spec fn heading_view(h: HeadingBlock) -> HeadingBlockView
    decreases h,
{
    HeadingBlockView {
        rich_text: rich_texts_view(h.rich_text@),
        children: children_view(h.children),
        color: string_option_view(h.color),
        is_toggleable: h.is_toggleable,
    }
}

/// The model of a list item, its children included.
pub open spec fn list_item_view(l: ListItemBlock) -> TextBlockView
    decreases l,
{
    TextBlockView {
        rich_text: rich_texts_view(l.rich_text@),
        children: children_view(l.children),
        color: string_option_view(l.color),
    }
}

/// The model of a to do, its children included.
pub open spec fn to_do_view(t: ToDoBlock) -> ToDoBlockView
    decreases t,
{
    ToDoBlockView {
        rich_text: rich_texts_view(t.rich_text@),
        children: children_view(t.children),
        checked: t.checked,
        color: string_option_view(t.color),
    }
}

/// The model of a quote, its children included.
pub open spec fn quote_view(q: QuoteBlock) -> TextBlockView
    decreases q,
{
    TextBlockView {
        rich_text: rich_texts_view(q.rich_text@),
        children: children_view(q.children),
        color: string_option_view(q.color),
    }
}

/// Model of one block, its children included.
pub open spec fn block_view(b: Block) -> BlockView
    decreases b,
{
    BlockView {
        object: b.object@,
        block_type: b.block_type,
        paragraph: match b.paragraph {
            Some(p) => Some(paragraph_view(p)),
            None => None,
        },
        heading_1: match b.heading_1 {
            Some(h) => Some(heading_view(h)),
            None => None,
        },
        heading_2: match b.heading_2 {
            Some(h) => Some(heading_view(h)),
            None => None,
        },
        heading_3: match b.heading_3 {
            Some(h) => Some(heading_view(h)),
            None => None,
        },
        bulleted_list_item: match b.bulleted_list_item {
            Some(l) => Some(list_item_view(l)),
            None => None,
        },
        numbered_list_item: match b.numbered_list_item {
            Some(l) => Some(list_item_view(l)),
            None => None,
        },
        to_do: match b.to_do {
            Some(t) => Some(to_do_view(t)),
            None => None,
        },
        code: match b.code {
            Some(c) => Some(
                CodeBlockView {
                    rich_text: rich_texts_view(c.rich_text@),
                    language: c.language@,
                    caption: rich_texts_option_view(c.caption),
                },
            ),
            None => None,
        },
        quote: match b.quote {
            Some(q) => Some(quote_view(q)),
            None => None,
        },
        divider: b.divider,
    }
}

impl View for Block {
    type V = BlockView;

    open spec fn view(&self) -> BlockView {
        block_view(*self)
    }
}

/// The model of a freshly made block of the given type: no content yet.
pub open spec fn empty_block_view(block_type: BlockType) -> BlockView {
    BlockView {
        object: "block"@,
        block_type,
        paragraph: None,
        heading_1: None,
        heading_2: None,
        heading_3: None,
        bulleted_list_item: None,
        numbered_list_item: None,
        to_do: None,
        code: None,
        quote: None,
        divider: None,
    }
}

/// The default styling: nothing set, color "default".
pub open spec fn default_annotations_view() -> AnnotationsView {
    AnnotationsView {
        bold: false,
        italic: false,
        strikethrough: false,
        underline: false,
        code: false,
        color: "default"@,
    }
}

/// A plain text run with the given content, link and styling.
pub open spec fn text_run_view(
    content: Seq<char>,
    link: Option<Seq<char>>,
    annotations: AnnotationsView,
) -> RichTextView {
    RichTextView {
        text_type: RichTextType::Text,
        text: Some(TextContentView { content, link }),
        annotations: Some(annotations),
        plain_text: Some(content),
        href: None,
    }
}

/// The model of a sequence of blocks is the model of each block, in order.
pub proof fn lemma_blocks_view_index(s: Seq<Block>)
    ensures
        blocks_view(s).len() == s.len(),
        forall|i: int| 0 <= i < s.len() ==> #[trigger] blocks_view(s)[i] == block_view(s[i]),
    decreases s.len(),
{
    if s.len() > 0 {
        lemma_blocks_view_index(s.subrange(0, s.len() - 1));
    }
}

/// The model of a concatenation is the concatenation of the models.
pub proof fn lemma_blocks_view_concat(a: Seq<Block>, b: Seq<Block>)
    ensures
        blocks_view(a + b) == blocks_view(a) + blocks_view(b),
{
    lemma_blocks_view_index(a);
    lemma_blocks_view_index(b);
    lemma_blocks_view_index(a + b);
    assert(blocks_view(a + b) =~= blocks_view(a) + blocks_view(b));
}

impl Block {
    /// A block of the given type with every content field empty.
    pub fn new(block_type: BlockType) -> (block: Self)
        ensures
            block@ == empty_block_view(block_type),
    {
        Block {
            object: "block".to_string(),
            block_type,
            paragraph: None,
            heading_1: None,
            heading_2: None,
            heading_3: None,
            bulleted_list_item: None,
            numbered_list_item: None,
            to_do: None,
            code: None,
            quote: None,
            divider: None,
        }
    }
}

impl RichText {
    /// A text run of `content`, linked to `link` when one is given, with the
    /// default styling.
    pub fn text(content: String, link: Option<String>) -> (rt: Self)
        ensures
            rt@ == text_run_view(content@, string_option_view(link), default_annotations_view()),
    {
        let plain = content.clone();
        let link = match link {
            Some(url) => Some(Link { url }),
            None => None,
        };
        RichText {
            text_type: RichTextType::Text,
            text: Some(TextContent { content: plain, link }),
            annotations: Some(Annotations::default()),
            plain_text: Some(content),
            href: None,
        }
    }
}

impl Annotations {
    /// No styling, with the color "default".
    pub fn default() -> (a: Self)
        ensures
            a@ == default_annotations_view(),
    {
        Annotations {
            bold: false,
            italic: false,
            strikethrough: false,
            underline: false,
            code: false,
            color: "default".to_string(),
        }
    }
}

} // verus!
