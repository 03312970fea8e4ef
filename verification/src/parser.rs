//! Turns markdown events into Notion blocks.
//!
//! The events are read front to back. Inline events gather in a pending run
//! until a block element starts; then the pending events become a paragraph.
//! Paragraphs and headings become one block each, lists become their items
//! (numbered when the list is ordered), and a list item becomes one bulleted
//! block whose text is its first paragraph and whose children are the rest.
use vstd::prelude::*;
use crate::markdown::{MdEvent, MdTag, markdown_events, markdown_to_events};
use crate::notion::{
    Annotations, AnnotationsView, Block, BlockType, BlockView, HeadingBlock, HeadingBlockView,
    ListItemBlock, ParagraphBlock, RichText, RichTextView, TextBlockView, block_view, blocks_view,
    paragraph_view,
    default_annotations_view, empty_block_view, lemma_blocks_view_concat, lemma_blocks_view_index,
    rich_texts_view, string_option_view, text_run_view,
};

verus! {

/// The markdown could not be read. `parse_markdown` never returns it: every
/// text is a markdown document.
#[derive(Debug)]
pub struct ParseError;

// ---------------------------------------------------------------------------
// Tags
// ---------------------------------------------------------------------------

/// The kind of element a tag delimits, as a number; a start and an end event
/// match when their tags are of the same kind.
pub open spec fn kind_of(tag: MdTag) -> int {
    match tag {
        MdTag::Paragraph => 0,
        MdTag::Heading(_) => 1,
        MdTag::BlockQuote => 2,
        MdTag::CodeBlock => 3,
        MdTag::List(_) => 4,
        MdTag::Item => 5,
        MdTag::Emphasis => 6,
        MdTag::Strong => 7,
        MdTag::Strikethrough => 8,
        MdTag::Link(_) => 9,
        MdTag::Other => 10,
    }
}

/// Tags that open a block element: paragraphs, headings, lists, list items,
/// block quotes and code blocks.
pub open spec fn spec_is_block_tag(tag: MdTag) -> bool {
    match tag {
        MdTag::Paragraph | MdTag::Heading(_) | MdTag::List(_) | MdTag::Item
        | MdTag::BlockQuote | MdTag::CodeBlock => true,
        _ => false,
    }
}

/// Block tags whose contents are gathered up to the matching end event.
pub open spec fn gathers(tag: MdTag) -> bool {
    match tag {
        MdTag::Paragraph | MdTag::Heading(_) | MdTag::List(_) | MdTag::Item => true,
        _ => false,
    }
}

/// The kind number of a tag.
pub fn tag_kind(tag: &MdTag) -> (kind: u8)
    ensures
        kind as int == kind_of(*tag),
{
    match tag {
        MdTag::Paragraph => 0,
        MdTag::Heading(_) => 1,
        MdTag::BlockQuote => 2,
        MdTag::CodeBlock => 3,
        MdTag::List(_) => 4,
        MdTag::Item => 5,
        MdTag::Emphasis => 6,
        MdTag::Strong => 7,
        MdTag::Strikethrough => 8,
        MdTag::Link(_) => 9,
        MdTag::Other => 10,
    }
}

/// Whether the tag opens a block element.
pub fn is_block_tag(tag: &MdTag) -> (b: bool)
    ensures
        b == spec_is_block_tag(*tag),
{
    match tag {
        MdTag::Paragraph | MdTag::Heading(_) | MdTag::List(_) | MdTag::Item
        | MdTag::BlockQuote | MdTag::CodeBlock => true,
        _ => false,
    }
}

// ---------------------------------------------------------------------------
// Gathering an element's events
// ---------------------------------------------------------------------------

/// Scanning from `i`, with `nested` elements of the same kind still open
/// inside, the position of the end event that closes the element; `None`
/// when the events run out first.
pub open spec fn find_close(events: Seq<MdEvent>, kind: int, i: int, nested: nat) -> Option<int>
    decreases events.len() - i,
{
    if i < 0 || i >= events.len() {
        None
    } else {
        match events[i] {
            MdEvent::Start(t) => if kind_of(t) == kind {
                find_close(events, kind, i + 1, nested + 1)
            } else {
                find_close(events, kind, i + 1, nested)
            },
            MdEvent::End(t) => if kind_of(t) == kind {
                if nested == 0 {
                    Some(i)
                } else {
                    find_close(events, kind, i + 1, (nested - 1) as nat)
                }
            } else {
                find_close(events, kind, i + 1, nested)
            },
            _ => find_close(events, kind, i + 1, nested),
        }
    }
}

/// Where the gathered contents of an element opened just before `start` end:
/// at its closing event, or at the end of the events.
pub open spec fn gathered_end(events: Seq<MdEvent>, kind: int, start: int) -> int {
    match find_close(events, kind, start, 0) {
        Some(c) => c,
        None => events.len() as int,
    }
}

/// Where reading goes on after such an element: just past its closing event.
pub open spec fn gathered_resume(events: Seq<MdEvent>, kind: int, start: int) -> int {
    match find_close(events, kind, start, 0) {
        Some(c) => c + 1,
        None => events.len() as int,
    }
}

/// A closing position lies at or after the scan's start, inside the events,
/// and holds an end event of the kind.
pub proof fn lemma_find_close_bounds(events: Seq<MdEvent>, kind: int, i: int, nested: nat)
    ensures
        find_close(events, kind, i, nested) matches Some(c) ==> {
            &&& i <= c < events.len()
            &&& events[c] matches MdEvent::End(t) && kind_of(t) == kind
        },
    decreases events.len() - i,
{
    if i >= 0 && i < events.len() {
        lemma_find_close_bounds(events, kind, i + 1, nested + 1);
        lemma_find_close_bounds(events, kind, i + 1, nested);
        if nested > 0 {
            lemma_find_close_bounds(events, kind, i + 1, (nested - 1) as nat);
        }
    }
}

/// The events of the element opened just before `start`, up to the event that
/// closes it (an element of the same kind may nest inside), and the position
/// just past that closing event. Without a closing event, all the remaining
/// events are gathered.
pub fn collect_events_until(events: &[MdEvent], start: usize, end_tag: &MdTag) -> (gathered: (
    Vec<MdEvent>,
    usize,
))
    requires
        start <= events@.len(),
    ensures
        gathered.0@ == events@.subrange(
            start as int,
            gathered_end(events@, kind_of(*end_tag), start as int),
        ),
        gathered.1 == gathered_resume(events@, kind_of(*end_tag), start as int),
        start <= gathered_end(events@, kind_of(*end_tag), start as int) <= gathered.1
            <= events@.len(),
{
    let kind = tag_kind(end_tag);
    let ghost k = kind_of(*end_tag);
    let mut collected: Vec<MdEvent> = Vec::new();
    let mut nested: usize = 0;
    let mut i = start;
    proof {
        lemma_find_close_bounds(events@, k, start as int, 0);
    }
    while i < events.len()
        invariant
            start <= i <= events@.len(),
            nested <= i - start,
            kind as int == k,
            k == kind_of(*end_tag),
            collected@ == events@.subrange(start as int, i as int),
            find_close(events@, k, start as int, 0) == find_close(events@, k, i as int, nested as nat),
        decreases events.len() - i,
    {
        let event = &events[i];
        match event {
            MdEvent::Start(tag) => {
                if tag_kind(tag) == kind {
                    nested = nested + 1;
                }
            },
            MdEvent::End(tag) => {
                if tag_kind(tag) == kind {
                    if nested == 0 {
                        assert(find_close(events@, k, i as int, 0) == Some(i as int));
                        return (collected, i + 1);
                    }
                    nested = nested - 1;
                }
            },
            _ => {},
        }
        collected.push(event.clone());
        i = i + 1;
        assert(collected@ =~= events@.subrange(start as int, i as int));
    }
    (collected, events.len())
}

// ---------------------------------------------------------------------------
// Inline text
// ---------------------------------------------------------------------------

/// The styling and link in force while inline events are read.
#[verifier::ext_equal]
pub struct InlineState {
    pub annotations: AnnotationsView,
    pub link: Option<Seq<char>>,
}

/// Nothing styled, no link.
pub open spec fn inline_start() -> InlineState {
    InlineState { annotations: default_annotations_view(), link: None }
}

/// The styling with bold, italic and strikethrough set as given.
pub open spec fn styled(a: AnnotationsView, bold: bool, italic: bool, strikethrough: bool) -> AnnotationsView {
    AnnotationsView {
        bold,
        italic,
        strikethrough,
        underline: a.underline,
        code: a.code,
        color: a.color,
    }
}

/// The styling marked as code.
pub open spec fn as_code(a: AnnotationsView) -> AnnotationsView {
    AnnotationsView {
        bold: a.bold,
        italic: a.italic,
        strikethrough: a.strikethrough,
        underline: a.underline,
        code: true,
        color: a.color,
    }
}

/// The runs one inline event yields: a text or code span becomes one run with
/// the styling and link in force (code spans also marked as code); other
/// events yield none.
pub open spec fn inline_runs(state: InlineState, e: MdEvent) -> Seq<RichTextView> {
    match e {
        MdEvent::Text(s) => seq![text_run_view(s@, state.link, state.annotations)],
        MdEvent::Code(s) => seq![text_run_view(s@, state.link, as_code(state.annotations))],
        _ => seq![],
    }
}

/// The styling and link after one inline event: strong, emphasis and
/// strikethrough turn bold, italic and strikethrough on at their start and off
/// at their end; a link's start sets the link and its end clears it.
pub open spec fn inline_next(state: InlineState, e: MdEvent) -> InlineState {
    let a = state.annotations;
    match e {
        MdEvent::Start(MdTag::Strong) => InlineState {
            annotations: styled(a, true, a.italic, a.strikethrough),
            link: state.link,
        },
        MdEvent::End(MdTag::Strong) => InlineState {
            annotations: styled(a, false, a.italic, a.strikethrough),
            link: state.link,
        },
        MdEvent::Start(MdTag::Emphasis) => InlineState {
            annotations: styled(a, a.bold, true, a.strikethrough),
            link: state.link,
        },
        MdEvent::End(MdTag::Emphasis) => InlineState {
            annotations: styled(a, a.bold, false, a.strikethrough),
            link: state.link,
        },
        MdEvent::Start(MdTag::Strikethrough) => InlineState {
            annotations: styled(a, a.bold, a.italic, true),
            link: state.link,
        },
        MdEvent::End(MdTag::Strikethrough) => InlineState {
            annotations: styled(a, a.bold, a.italic, false),
            link: state.link,
        },
        MdEvent::Start(MdTag::Link(url)) => InlineState { annotations: a, link: Some(url@) },
        MdEvent::End(MdTag::Link(_)) => InlineState { annotations: a, link: None },
        _ => state,
    }
}

/// The runs that inline events yield, read front to back from `state`.
pub open spec fn inline_run(events: Seq<MdEvent>, state: InlineState) -> Seq<RichTextView>
    decreases events.len(),
{
    if events.len() == 0 {
        Seq::empty()
    } else {
        inline_runs(state, events[0]) + inline_run(
            events.subrange(1, events.len() as int),
            inline_next(state, events[0]),
        )
    }
}

/// The rich text of a run of inline events.
pub open spec fn spec_parse_inline(events: Seq<MdEvent>) -> Seq<RichTextView> {
    inline_run(events, inline_start())
}

/// The inline state that a styling and a link stand for.
pub open spec fn inline_state_of(annotations: Annotations, link: Option<String>) -> InlineState {
    InlineState { annotations: annotations@, link: string_option_view(link) }
}

/// A copy of the styling, marked as code or not.
fn copy_annotations(a: &Annotations, code: bool) -> (c: Annotations)
    ensures
        c@ == (AnnotationsView { code, ..a@ }),
{
    Annotations {
        bold: a.bold,
        italic: a.italic,
        strikethrough: a.strikethrough,
        underline: a.underline,
        code,
        color: a.color.clone(),
    }
}

/// A copy of the link in force.
fn copy_link(link: &Option<String>) -> (c: Option<String>)
    ensures
        c == *link,
{
    match link {
        Some(url) => Some(url.clone()),
        None => None,
    }
}

/// The rich text of a run of inline events: one text run per text or code
/// span, styled by the strong, emphasis, strikethrough and link elements
/// around it.
pub fn parse_inline(events: &[MdEvent]) -> (runs: Vec<RichText>)
    ensures
        rich_texts_view(runs@) == spec_parse_inline(events@),
{
    let mut result: Vec<RichText> = Vec::new();
    let mut current = Annotations::default();
    let mut current_link: Option<String> = None;
    let mut i: usize = 0;
    assert(events@.subrange(0, events@.len() as int) =~= events@);
    assert(rich_texts_view(result@) =~= Seq::<RichTextView>::empty());
    assert(inline_state_of(current, current_link) == inline_start());
    while i < events.len()
        invariant
            i <= events@.len(),
            rich_texts_view(result@) + inline_run(
                events@.subrange(i as int, events@.len() as int),
                inline_state_of(current, current_link),
            ) == spec_parse_inline(events@),
        decreases events.len() - i,
    {
        let ghost state = inline_state_of(current, current_link);
        let ghost rest = events@.subrange(i as int, events@.len() as int);
        let ghost before = result@;
        assert(rest.subrange(1, rest.len() as int) =~= events@.subrange(
            i + 1,
            events@.len() as int,
        ));
        assert(rest[0] == events@[i as int]);
        match &events[i] {
            MdEvent::Text(text) => {
                let mut rt = RichText::text(text.clone(), copy_link(&current_link));
                rt.annotations = Some(copy_annotations(&current, current.code));
                result.push(rt);
                assert(rich_texts_view(result@) =~= rich_texts_view(before) + inline_runs(
                    state,
                    rest[0],
                ));
            },
            MdEvent::Code(text) => {
                let mut rt = RichText::text(text.clone(), copy_link(&current_link));
                rt.annotations = Some(copy_annotations(&current, true));
                result.push(rt);
                assert(rich_texts_view(result@) =~= rich_texts_view(before) + inline_runs(
                    state,
                    rest[0],
                ));
            },
            MdEvent::Start(MdTag::Strong) => current.bold = true,
            MdEvent::End(MdTag::Strong) => current.bold = false,
            MdEvent::Start(MdTag::Emphasis) => current.italic = true,
            MdEvent::End(MdTag::Emphasis) => current.italic = false,
            MdEvent::Start(MdTag::Strikethrough) => current.strikethrough = true,
            MdEvent::End(MdTag::Strikethrough) => current.strikethrough = false,
            MdEvent::Start(MdTag::Link(url)) => current_link = Some(url.clone()),
            MdEvent::End(MdTag::Link(_)) => current_link = None,
            _ => {},
        }
        assert(inline_state_of(current, current_link) == inline_next(state, rest[0]));
        i = i + 1;
    }
    result
}

// ---------------------------------------------------------------------------
// Blocks
// ---------------------------------------------------------------------------

/// A paragraph block holding the given runs.
pub open spec fn paragraph_block_view(rich_text: Seq<RichTextView>) -> BlockView {
    BlockView {
        paragraph: Some(TextBlockView { rich_text, children: None, color: None }),
        ..empty_block_view(BlockType::Paragraph)
    }
}

/// A heading block holding the given runs: level 1 and 2 make headings of
/// those levels, any deeper level a heading of level 3.
pub open spec fn heading_block_view(level: u8, rich_text: Seq<RichTextView>) -> BlockView {
    let h = HeadingBlockView { rich_text, children: None, color: None, is_toggleable: None };
    if level == 1 {
        BlockView { heading_1: Some(h), ..empty_block_view(BlockType::Heading1) }
    } else if level == 2 {
        BlockView { heading_2: Some(h), ..empty_block_view(BlockType::Heading2) }
    } else {
        BlockView { heading_3: Some(h), ..empty_block_view(BlockType::Heading3) }
    }
}

/// The bulleted list item made of the blocks read inside the item: when the
/// first of them has paragraph content, that content is the item's text and
/// the other blocks are its children; otherwise all of them are children.
/// An item without children has none rather than an empty list.
pub open spec fn list_item_block_view(item_blocks: Seq<BlockView>) -> BlockView {
    let first_is_text = item_blocks.len() > 0 && item_blocks[0].paragraph is Some;
    let rich_text = if first_is_text {
        item_blocks[0].paragraph.unwrap().rich_text
    } else {
        Seq::empty()
    };
    let children = if first_is_text {
        item_blocks.subrange(1, item_blocks.len() as int)
    } else {
        item_blocks
    };
    BlockView {
        bulleted_list_item: Some(
            TextBlockView {
                rich_text,
                children: if children.len() == 0 {
                    None
                } else {
                    Some(children)
                },
                color: None,
            },
        ),
        ..empty_block_view(BlockType::BulletedListItem)
    }
}

/// A bulleted item with content turned into a numbered one; any other block
/// as it is.
pub open spec fn numbered_view(b: BlockView) -> BlockView {
    if b.block_type == BlockType::BulletedListItem && b.bulleted_list_item is Some {
        BlockView {
            block_type: BlockType::NumberedListItem,
            bulleted_list_item: None,
            numbered_list_item: b.bulleted_list_item,
            ..b
        }
    } else {
        b
    }
}

/// The blocks of an ordered list, each bulleted item numbered.
pub open spec fn number_items_view(blocks: Seq<BlockView>) -> Seq<BlockView> {
    blocks.map_values(|b: BlockView| numbered_view(b))
}

/// Pending inline events become one paragraph, when there are any.
pub open spec fn flush_view(pending: Seq<MdEvent>) -> Seq<BlockView> {
    if pending.len() == 0 {
        Seq::empty()
    } else {
        seq![paragraph_block_view(spec_parse_inline(pending))]
    }
}

/// The blocks of events read from position `pos` on, with `pending` inline
/// events not yet made into a paragraph.
pub open spec fn blocks_from(events: Seq<MdEvent>, pos: int, pending: Seq<MdEvent>) -> Seq<BlockView>
    decreases events.len() - pos, 0int,
{
    if pos < 0 || pos >= events.len() {
        flush_view(pending)
    } else {
        match events[pos] {
            MdEvent::Start(tag) => if gathers(tag) {
                let kind = kind_of(tag);
                proof {
                    lemma_find_close_bounds(events, kind, pos + 1, 0);
                }
                flush_view(pending) + element_blocks(
                    tag,
                    events.subrange(pos + 1, gathered_end(events, kind, pos + 1)),
                ) + blocks_from(events, gathered_resume(events, kind, pos + 1), Seq::empty())
            } else if spec_is_block_tag(tag) {
                flush_view(pending) + blocks_from(events, pos + 1, Seq::empty())
            } else {
                blocks_from(events, pos + 1, pending.push(events[pos]))
            },
            _ => blocks_from(events, pos + 1, pending.push(events[pos])),
        }
    }
}

/// The blocks an element yields from the events gathered inside it.
pub open spec fn element_blocks(tag: MdTag, inner: Seq<MdEvent>) -> Seq<BlockView>
    decreases inner.len(), 1int,
{
    match tag {
        MdTag::Paragraph => seq![paragraph_block_view(spec_parse_inline(inner))],
        MdTag::Heading(level) => seq![heading_block_view(level, spec_parse_inline(inner))],
        MdTag::List(start) => if start is Some {
            number_items_view(blocks_from(inner, 0, Seq::empty()))
        } else {
            blocks_from(inner, 0, Seq::empty())
        },
        MdTag::Item => seq![list_item_block_view(blocks_from(inner, 0, Seq::empty()))],
        _ => Seq::empty(),
    }
}

/// The blocks of a sequence of markdown events.
pub open spec fn spec_parse_events(events: Seq<MdEvent>) -> Seq<BlockView> {
    blocks_from(events, 0, Seq::empty())
}

/// A paragraph block holding the runs.
fn paragraph_block(rich_text: Vec<RichText>) -> (block: Block)
    ensures
        block@ == paragraph_block_view(rich_texts_view(rich_text@)),
{
    let mut block = Block::new(BlockType::Paragraph);
    block.paragraph = Some(ParagraphBlock { rich_text, children: None, color: None });
    block
}

/// A heading block of the given level holding the runs.
fn heading_block(level: u8, rich_text: Vec<RichText>) -> (block: Block)
    ensures
        block@ == heading_block_view(level, rich_texts_view(rich_text@)),
{
    let heading = HeadingBlock { rich_text, children: None, color: None, is_toggleable: None };
    if level == 1 {
        let mut block = Block::new(BlockType::Heading1);
        block.heading_1 = Some(heading);
        block
    } else if level == 2 {
        let mut block = Block::new(BlockType::Heading2);
        block.heading_2 = Some(heading);
        block
    } else {
        let mut block = Block::new(BlockType::Heading3);
        block.heading_3 = Some(heading);
        block
    }
}

/// The bulleted list item made of the blocks read inside an item.
fn list_item_block(item_blocks: Vec<Block>) -> (block: Block)
    ensures
        block@ == list_item_block_view(blocks_view(item_blocks@)),
{
    let ghost items = item_blocks@;
    let ghost iv = blocks_view(items);
    proof {
        lemma_blocks_view_index(items);
    }
    let mut item_blocks = item_blocks;
    let mut rich_text: Vec<RichText> = Vec::new();
    let mut children: Vec<Block> = Vec::new();
    let ghost first_is_text = iv.len() > 0 && iv[0].paragraph is Some;
    if item_blocks.len() > 0 {
        let first = item_blocks.remove(0);
        proof {
            lemma_blocks_view_index(item_blocks@);
            assert(blocks_view(item_blocks@) =~= iv.subrange(1, iv.len() as int));
            assert(iv[0] == block_view(first));
        }
        match first.paragraph {
            Some(p) => {
                assert(iv[0].paragraph == Some(paragraph_view(p)));
                rich_text = p.rich_text;
                children = item_blocks;
            },
            None => {
                children.push(first);
                proof {
                    lemma_blocks_view_concat(children@, item_blocks@);
                    assert(children@ + item_blocks@ =~= items);
                }
                children.append(&mut item_blocks);
            },
        }
    } else {
        assert(blocks_view(children@) =~= iv);
    }
    assert(rich_texts_view(rich_text@) == (if first_is_text {
        iv[0].paragraph.unwrap().rich_text
    } else {
        Seq::empty()
    }));
    assert(blocks_view(children@) == (if first_is_text {
        iv.subrange(1, iv.len() as int)
    } else {
        iv
    }));
    let mut block = Block::new(BlockType::BulletedListItem);
    let children = if children.len() == 0 {
        None
    } else {
        Some(children)
    };
    block.bulleted_list_item = Some(ListItemBlock { rich_text, children, color: None });
    block
}

/// The blocks of an ordered list: bulleted items become numbered ones.
fn number_items(blocks: Vec<Block>) -> (numbered: Vec<Block>)
    ensures
        blocks_view(numbered@) == number_items_view(blocks_view(blocks@)),
{
    let ghost all = blocks@;
    let mut source = blocks;
    let mut out: Vec<Block> = Vec::new();
    let ghost mut done: int = 0;
    proof {
        lemma_blocks_view_index(all);
        lemma_blocks_view_index(source@);
    }
    while source.len() > 0
        invariant
            0 <= done <= all.len(),
            source@ == all.subrange(done, all.len() as int),
            blocks_view(out@) == number_items_view(blocks_view(all)).subrange(0, done),
            blocks_view(all).len() == all.len(),
            forall|i: int| 0 <= i < all.len() ==> #[trigger] blocks_view(all)[i] == block_view(all[i]),
        decreases source.len(),
    {
        let mut block = source.remove(0);
        assert(block == all[done]);
        if block.block_type == BlockType::BulletedListItem {
            match block.bulleted_list_item.take() {
                Some(data) => {
                    block.block_type = BlockType::NumberedListItem;
                    block.numbered_list_item = Some(data);
                },
                None => {},
            }
        }
        assert(block_view(block) == numbered_view(block_view(all[done])));
        let ghost old_out = out@;
        out.push(block);
        proof {
            lemma_blocks_view_concat(old_out, seq![block]);
            assert(old_out.push(block) =~= old_out + seq![block]);
            lemma_blocks_view_index(seq![block]);
            done = done + 1;
            assert(source@ =~= all.subrange(done, all.len() as int));
            assert(blocks_view(out@) =~= number_items_view(blocks_view(all)).subrange(0, done));
        }
    }
    assert(number_items_view(blocks_view(all)).subrange(0, done) =~= number_items_view(
        blocks_view(all),
    ));
    out
}

/// The blocks of a sequence of markdown events (see the module
/// documentation for how they are formed).
pub fn parse_events(events: &[MdEvent]) -> (blocks: Vec<Block>)
    ensures
        blocks_view(blocks@) == spec_parse_events(events@),
    decreases events@.len(),
{
    let mut blocks: Vec<Block> = Vec::new();
    let mut pending: Vec<MdEvent> = Vec::new();
    let mut i: usize = 0;
    while i < events.len()
        invariant
            i <= events@.len(),
            blocks_view(blocks@) + blocks_from(events@, i as int, pending@) == spec_parse_events(
                events@,
            ),
        decreases events.len() - i,
    {
        let event = &events[i];
        let ghost old_i = i as int;
        let ghost old_pending = pending@;
        let ghost old_view = blocks_view(blocks@);
        let starts_block = match event {
            MdEvent::Start(tag) => is_block_tag(tag),
            _ => false,
        };
        if starts_block {
            let ghost flushed = flush_view(pending@);
            let ghost before = blocks_view(blocks@);
            if pending.len() > 0 {
                let rich_text = parse_inline(pending.as_slice());
                let ghost old_blocks = blocks@;
                blocks.push(paragraph_block(rich_text));
                proof {
                    lemma_blocks_view_concat(old_blocks, seq![blocks@.last()]);
                    assert(blocks@ =~= old_blocks + seq![blocks@.last()]);
                    lemma_blocks_view_index(seq![blocks@.last()]);
                    assert(blocks_view(seq![blocks@.last()]) =~= flushed);
                }
                pending = Vec::new();
            }
            assert(blocks_view(blocks@) =~= before + flushed);
            assert(pending@ =~= Seq::<MdEvent>::empty());
            match event {
                MdEvent::Start(tag) => {
                    let ghost kind = kind_of(*tag);
                    match tag {
                        MdTag::Paragraph => {
                            let (inner, next) = collect_events_until(events, i + 1, tag);
                            let rich_text = parse_inline(inner.as_slice());
                            let ghost old_blocks = blocks@;
                            blocks.push(paragraph_block(rich_text));
                            proof {
                                lemma_blocks_view_concat(old_blocks, seq![blocks@.last()]);
                                assert(blocks@ =~= old_blocks + seq![blocks@.last()]);
                                lemma_blocks_view_index(seq![blocks@.last()]);
                                assert(blocks_view(seq![blocks@.last()]) =~= element_blocks(
                                    *tag,
                                    inner@,
                                ));
                            }
                            proof {
                                lemma_find_close_bounds(events@, kind, old_i + 1, 0);
                                assert(blocks_from(events@, old_i, old_pending) == flushed
                                    + element_blocks(*tag, inner@) + blocks_from(
                                    events@,
                                    next as int,
                                    Seq::empty(),
                                ));
                                assert(blocks_view(blocks@) =~= old_view + flushed
                                    + element_blocks(*tag, inner@));
                            }
                            i = next;
                        },
                        MdTag::Heading(level) => {
                            let (inner, next) = collect_events_until(events, i + 1, tag);
                            let rich_text = parse_inline(inner.as_slice());
                            let ghost old_blocks = blocks@;
                            blocks.push(heading_block(*level, rich_text));
                            proof {
                                lemma_blocks_view_concat(old_blocks, seq![blocks@.last()]);
                                assert(blocks@ =~= old_blocks + seq![blocks@.last()]);
                                lemma_blocks_view_index(seq![blocks@.last()]);
                                assert(blocks_view(seq![blocks@.last()]) =~= element_blocks(
                                    *tag,
                                    inner@,
                                ));
                            }
                            proof {
                                lemma_find_close_bounds(events@, kind, old_i + 1, 0);
                                assert(blocks_from(events@, old_i, old_pending) == flushed
                                    + element_blocks(*tag, inner@) + blocks_from(
                                    events@,
                                    next as int,
                                    Seq::empty(),
                                ));
                                assert(blocks_view(blocks@) =~= old_view + flushed
                                    + element_blocks(*tag, inner@));
                            }
                            i = next;
                        },
                        MdTag::List(start) => {
                            let (inner, next) = collect_events_until(events, i + 1, tag);
                            let mut children = parse_events(inner.as_slice());
                            if start.is_some() {
                                children = number_items(children);
                            }
                            let ghost old_blocks = blocks@;
                            let ghost new_blocks = children@;
                            blocks.append(&mut children);
                            proof {
                                lemma_blocks_view_concat(old_blocks, new_blocks);
                            }
                            proof {
                                lemma_find_close_bounds(events@, kind, old_i + 1, 0);
                                assert(blocks_from(events@, old_i, old_pending) == flushed
                                    + element_blocks(*tag, inner@) + blocks_from(
                                    events@,
                                    next as int,
                                    Seq::empty(),
                                ));
                                assert(blocks_view(blocks@) =~= old_view + flushed
                                    + element_blocks(*tag, inner@));
                            }
                            i = next;
                        },
                        MdTag::Item => {
                            let (inner, next) = collect_events_until(events, i + 1, tag);
                            let item_blocks = parse_events(inner.as_slice());
                            let ghost old_blocks = blocks@;
                            blocks.push(list_item_block(item_blocks));
                            proof {
                                lemma_blocks_view_concat(old_blocks, seq![blocks@.last()]);
                                assert(blocks@ =~= old_blocks + seq![blocks@.last()]);
                                lemma_blocks_view_index(seq![blocks@.last()]);
                                assert(blocks_view(seq![blocks@.last()]) =~= element_blocks(
                                    *tag,
                                    inner@,
                                ));
                            }
                            proof {
                                lemma_find_close_bounds(events@, kind, old_i + 1, 0);
                                assert(blocks_from(events@, old_i, old_pending) == flushed
                                    + element_blocks(*tag, inner@) + blocks_from(
                                    events@,
                                    next as int,
                                    Seq::empty(),
                                ));
                                assert(blocks_view(blocks@) =~= old_view + flushed
                                    + element_blocks(*tag, inner@));
                            }
                            i = next;
                        },
                        _ => {
                            assert(blocks_from(events@, old_i, old_pending) == flushed
                                + blocks_from(events@, old_i + 1, Seq::empty()));
                            i = i + 1;
                        },
                    }
                },
                _ => {
                    i = i + 1;
                },
            }
        } else {
            pending.push(event.clone());
            assert(blocks_from(events@, old_i, old_pending) == blocks_from(
                events@,
                old_i + 1,
                pending@,
            ));
            i = i + 1;
        }
    }
    if pending.len() > 0 {
        let rich_text = parse_inline(pending.as_slice());
        let ghost old_blocks = blocks@;
        blocks.push(paragraph_block(rich_text));
        proof {
            lemma_blocks_view_concat(old_blocks, seq![blocks@.last()]);
            assert(blocks@ =~= old_blocks + seq![blocks@.last()]);
            lemma_blocks_view_index(seq![blocks@.last()]);
        }
    }
    blocks
}

/// The Notion blocks of a markdown document. Reading never fails.
pub fn parse_markdown(content: &str) -> (result: Result<Vec<Block>, ParseError>)
    ensures
        result matches Ok(blocks) && blocks_view(blocks@) == spec_parse_events(
            markdown_events(content@),
        ),
{
    let events = markdown_to_events(content);
    Ok(parse_events(events.as_slice()))
}

} // verus!
