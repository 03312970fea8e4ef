//! What holds of every document the block parser reads: the blocks it makes
//! are well formed, they keep all the text of the document in order, the
//! items of ordered lists are numbered, and every run is a plain text run.
use vstd::prelude::*;
use crate::markdown::{MdEvent, MdTag};
use crate::notion::{BlockType, BlockView, HeadingBlockView, RichTextType, RichTextView, TextBlockView};
use crate::parser::{
    blocks_from, element_blocks, flush_view, gathered_end, gathered_resume, gathers,
    heading_block_view, inline_next, inline_run, inline_runs, inline_start, kind_of, lemma_find_close_bounds,
    list_item_block_view, number_items_view, numbered_view, paragraph_block_view,
    spec_is_block_tag, spec_parse_events, spec_parse_inline, InlineState, find_close,
    inline_state_of,
};

verus! {

// ---------------------------------------------------------------------------
// Well-formed blocks
// ---------------------------------------------------------------------------

/// The content field that matches the block's type is present and every
/// other one is absent; the type is one the parser makes.
pub open spec fn content_matches_type(b: BlockView) -> bool {
    &&& (b.paragraph is Some <==> b.block_type == BlockType::Paragraph)
    &&& (b.heading_1 is Some <==> b.block_type == BlockType::Heading1)
    &&& (b.heading_2 is Some <==> b.block_type == BlockType::Heading2)
    &&& (b.heading_3 is Some <==> b.block_type == BlockType::Heading3)
    &&& (b.bulleted_list_item is Some <==> b.block_type == BlockType::BulletedListItem)
    &&& (b.numbered_list_item is Some <==> b.block_type == BlockType::NumberedListItem)
    &&& b.to_do is None
    &&& b.code is None
    &&& b.quote is None
    &&& b.divider is None
    &&& (b.block_type == BlockType::Paragraph || b.block_type == BlockType::Heading1
        || b.block_type == BlockType::Heading2 || b.block_type == BlockType::Heading3
        || b.block_type == BlockType::BulletedListItem || b.block_type
        == BlockType::NumberedListItem)
}

/// A heading, when present, has no children, color or toggle.
pub open spec fn heading_well_formed(h: Option<HeadingBlockView>) -> bool {
    h matches Some(h) ==> h.children is None && h.color is None && h.is_toggleable is None
}

/// A list item's children, when it has any, are a non-empty sequence of
/// well-formed blocks.
pub open spec fn item_well_formed(item: Option<TextBlockView>) -> bool
    decreases item,
{
    match item {
        Some(l) => l.color is None && match l.children {
            Some(c) => c.len() > 0 && all_well_formed(c),
            None => true,
        },
        None => true,
    }
}

/// A block as the parser makes it: an object of kind "block" whose content
/// matches its type; paragraphs and headings have no children; list items
/// have well-formed children or none.
pub open spec fn well_formed_block(b: BlockView) -> bool
    decreases b,
{
    &&& b.object == "block"@
    &&& content_matches_type(b)
    &&& (b.paragraph matches Some(p) ==> p.children is None && p.color is None)
    &&& heading_well_formed(b.heading_1)
    &&& heading_well_formed(b.heading_2)
    &&& heading_well_formed(b.heading_3)
    &&& item_well_formed(b.bulleted_list_item)
    &&& item_well_formed(b.numbered_list_item)
}

/// Every block of the sequence is well formed.
pub open spec fn all_well_formed(s: Seq<BlockView>) -> bool
    decreases s,
{
    if s.len() == 0 {
        true
    } else {
        all_well_formed(s.subrange(0, s.len() - 1)) && well_formed_block(s[s.len() - 1])
    }
}

pub proof fn lemma_all_well_formed_index(s: Seq<BlockView>)
    ensures
        all_well_formed(s) <==> forall|i: int| 0 <= i < s.len() ==> #[trigger] well_formed_block(s[i]),
    decreases s.len(),
{
    reveal_with_fuel(all_well_formed, 2);
    if s.len() > 0 {
        let t = s.subrange(0, s.len() - 1);
        lemma_all_well_formed_index(t);
        assert(forall|i: int| 0 <= i < t.len() ==> #[trigger] t[i] == s[i]);
        assert(all_well_formed(s) == (all_well_formed(t) && well_formed_block(s[s.len() - 1])));
        if forall|i: int| 0 <= i < s.len() ==> #[trigger] well_formed_block(s[i]) {
            assert(well_formed_block(s[s.len() - 1]));
            assert forall|i: int| 0 <= i < t.len() implies #[trigger] well_formed_block(t[i]) by {
                assert(well_formed_block(s[i]));
            }
        }
        if all_well_formed(s) {
            assert forall|i: int| 0 <= i < s.len() implies #[trigger] well_formed_block(s[i]) by {
                if i < t.len() {
                    assert(well_formed_block(t[i]));
                }
            }
        }
    } else {
        assert(all_well_formed(s));
    }
}

proof fn lemma_all_well_formed_concat(a: Seq<BlockView>, b: Seq<BlockView>)
    requires
        all_well_formed(a),
        all_well_formed(b),
    ensures
        all_well_formed(a + b),
{
    lemma_all_well_formed_index(a);
    lemma_all_well_formed_index(b);
    lemma_all_well_formed_index(a + b);
    assert forall|i: int| 0 <= i < (a + b).len() implies #[trigger] well_formed_block((a + b)[i]) by {
        if i < a.len() {
            assert((a + b)[i] == a[i]);
        } else {
            assert((a + b)[i] == b[i - a.len()]);
        }
    }
}

proof fn lemma_flush_well_formed(pending: Seq<MdEvent>)
    ensures
        all_well_formed(flush_view(pending)),
{
    reveal_with_fuel(all_well_formed, 2);
    if pending.len() > 0 {
        let s = flush_view(pending);
        assert(s.subrange(0, 0) =~= Seq::<BlockView>::empty());
        assert(well_formed_block(s[0]));
    }
}

proof fn lemma_single_well_formed(b: BlockView)
    requires
        well_formed_block(b),
    ensures
        all_well_formed(seq![b]),
{
    reveal_with_fuel(all_well_formed, 2);
    assert(seq![b].subrange(0, 0) =~= Seq::<BlockView>::empty());
}

proof fn lemma_number_items_well_formed(s: Seq<BlockView>)
    requires
        all_well_formed(s),
    ensures
        all_well_formed(number_items_view(s)),
        forall|i: int|
            0 <= i < s.len() ==> (#[trigger] number_items_view(s)[i]).block_type
                != BlockType::BulletedListItem,
{
    lemma_all_well_formed_index(s);
    lemma_all_well_formed_index(number_items_view(s));
    assert forall|i: int| 0 <= i < s.len() implies well_formed_block(
        #[trigger] number_items_view(s)[i],
    ) && number_items_view(s)[i].block_type != BlockType::BulletedListItem by {
        let b = s[i];
        assert(well_formed_block(b));
        assert(number_items_view(s)[i] == numbered_view(b));
    }
}

proof fn lemma_list_item_well_formed(item_blocks: Seq<BlockView>)
    requires
        all_well_formed(item_blocks),
    ensures
        well_formed_block(list_item_block_view(item_blocks)),
{
    lemma_all_well_formed_index(item_blocks);
    if item_blocks.len() > 0 && item_blocks[0].paragraph is Some {
        let rest = item_blocks.subrange(1, item_blocks.len() as int);
        lemma_all_well_formed_index(rest);
        assert forall|i: int| 0 <= i < rest.len() implies #[trigger] well_formed_block(rest[i]) by {
            assert(rest[i] == item_blocks[i + 1]);
        }
    }
}

/// The blocks made from `pos` on, with `pending` inline events, are well
/// formed.
pub proof fn lemma_blocks_from_well_formed(events: Seq<MdEvent>, pos: int, pending: Seq<MdEvent>)
    ensures
        all_well_formed(blocks_from(events, pos, pending)),
    decreases events.len() - pos, 0int,
{
    lemma_flush_well_formed(pending);
    if pos < 0 || pos >= events.len() {
    } else {
        match events[pos] {
            MdEvent::Start(tag) => {
                if gathers(tag) {
                    let kind = kind_of(tag);
                    lemma_find_close_bounds(events, kind, pos + 1, 0);
                    let inner = events.subrange(pos + 1, gathered_end(events, kind, pos + 1));
                    lemma_element_well_formed(tag, inner);
                    lemma_blocks_from_well_formed(
                        events,
                        gathered_resume(events, kind, pos + 1),
                        Seq::empty(),
                    );
                    lemma_all_well_formed_concat(flush_view(pending), element_blocks(tag, inner));
                    lemma_all_well_formed_concat(
                        flush_view(pending) + element_blocks(tag, inner),
                        blocks_from(events, gathered_resume(events, kind, pos + 1), Seq::empty()),
                    );
                } else if spec_is_block_tag(tag) {
                    lemma_blocks_from_well_formed(events, pos + 1, Seq::empty());
                    lemma_all_well_formed_concat(
                        flush_view(pending),
                        blocks_from(events, pos + 1, Seq::empty()),
                    );
                } else {
                    lemma_blocks_from_well_formed(events, pos + 1, pending.push(events[pos]));
                }
            },
            _ => {
                lemma_blocks_from_well_formed(events, pos + 1, pending.push(events[pos]));
            },
        }
    }
}

/// The blocks an element yields are well formed.
pub proof fn lemma_element_well_formed(tag: MdTag, inner: Seq<MdEvent>)
    ensures
        all_well_formed(element_blocks(tag, inner)),
    decreases inner.len(), 1int,
{
    match tag {
        MdTag::Paragraph => {
            lemma_single_well_formed(paragraph_block_view(spec_parse_inline(inner)));
        },
        MdTag::Heading(level) => {
            lemma_single_well_formed(heading_block_view(level, spec_parse_inline(inner)));
        },
        MdTag::List(start) => {
            lemma_blocks_from_well_formed(inner, 0, Seq::empty());
            lemma_number_items_well_formed(blocks_from(inner, 0, Seq::empty()));
        },
        MdTag::Item => {
            lemma_blocks_from_well_formed(inner, 0, Seq::empty());
            lemma_list_item_well_formed(blocks_from(inner, 0, Seq::empty()));
            lemma_single_well_formed(list_item_block_view(blocks_from(inner, 0, Seq::empty())));
        },
        _ => {},
    }
}

/// Law: every block the parser makes from any sequence of events is well
/// formed: an object of kind "block", a paragraph, heading or list item whose
/// content field matches its type and no other content field set, with no
/// children under paragraphs and headings, and list items whose children,
/// when present, are non-empty and themselves well formed.
pub proof fn law_parsed_blocks_well_formed(events: Seq<MdEvent>)
    ensures
        all_well_formed(spec_parse_events(events)),
        forall|i: int|
            0 <= i < spec_parse_events(events).len() ==> #[trigger] well_formed_block(
                spec_parse_events(events)[i],
            ),
{
    lemma_blocks_from_well_formed(events, 0, Seq::empty());
    lemma_all_well_formed_index(spec_parse_events(events));
}

/// Law: the items of an ordered list are numbered: no block that an ordered
/// list yields is a bulleted list item.
pub proof fn law_ordered_list_items_numbered(start: u64, inner: Seq<MdEvent>)
    ensures
        forall|i: int|
            0 <= i < element_blocks(MdTag::List(Some(start)), inner).len() ==> (#[trigger] element_blocks(
                MdTag::List(Some(start)),
                inner,
            )[i]).block_type != BlockType::BulletedListItem,
{
    lemma_blocks_from_well_formed(inner, 0, Seq::empty());
    lemma_number_items_well_formed(blocks_from(inner, 0, Seq::empty()));
}

// ---------------------------------------------------------------------------
// Text
// ---------------------------------------------------------------------------

/// The text an event contributes: that of a text or code span.
pub open spec fn event_text(e: MdEvent) -> Seq<char> {
    match e {
        MdEvent::Text(s) => s@,
        MdEvent::Code(s) => s@,
        _ => Seq::empty(),
    }
}

/// The text of a sequence of events: its text and code spans, in order.
pub open spec fn events_text(events: Seq<MdEvent>) -> Seq<char>
    decreases events.len(),
{
    if events.len() == 0 {
        Seq::empty()
    } else {
        events_text(events.subrange(0, events.len() - 1)) + event_text(events[events.len() - 1])
    }
}

/// The text of a run.
pub open spec fn run_text(r: RichTextView) -> Seq<char> {
    match r.plain_text {
        Some(t) => t,
        None => Seq::empty(),
    }
}

/// The text of a sequence of runs, in order.
pub open spec fn runs_text(runs: Seq<RichTextView>) -> Seq<char>
    decreases runs.len(),
{
    if runs.len() == 0 {
        Seq::empty()
    } else {
        runs_text(runs.subrange(0, runs.len() - 1)) + run_text(runs[runs.len() - 1])
    }
}

/// The text of optional paragraph or list item content, its children's included.
pub open spec fn text_block_text(t: Option<TextBlockView>) -> Seq<char>
    decreases t,
{
    match t {
        Some(t) => runs_text(t.rich_text) + children_text(t.children),
        None => Seq::empty(),
    }
}

/// The text of optional heading content, its children's included.
pub open spec fn heading_text(h: Option<HeadingBlockView>) -> Seq<char>
    decreases h,
{
    match h {
        Some(h) => runs_text(h.rich_text) + children_text(h.children),
        None => Seq::empty(),
    }
}

/// The text of optional children.
pub open spec fn children_text(c: Option<Seq<BlockView>>) -> Seq<char>
    decreases c,
{
    match c {
        Some(s) => blocks_text(s),
        None => Seq::empty(),
    }
}

/// The text of a block: the text of the content that matches its type, then
/// the text of its children.
pub open spec fn block_text(b: BlockView) -> Seq<char>
    decreases b,
{
    match b.block_type {
        BlockType::Paragraph => text_block_text(b.paragraph),
        BlockType::Heading1 => heading_text(b.heading_1),
        BlockType::Heading2 => heading_text(b.heading_2),
        BlockType::Heading3 => heading_text(b.heading_3),
        BlockType::BulletedListItem => text_block_text(b.bulleted_list_item),
        BlockType::NumberedListItem => text_block_text(b.numbered_list_item),
        _ => Seq::empty(),
    }
}

/// The text of a sequence of blocks, block by block.
pub open spec fn blocks_text(s: Seq<BlockView>) -> Seq<char>
    decreases s,
{
    if s.len() == 0 {
        Seq::empty()
    } else {
        blocks_text(s.subrange(0, s.len() - 1)) + block_text(s[s.len() - 1])
    }
}

proof fn lemma_events_text_concat(a: Seq<MdEvent>, b: Seq<MdEvent>)
    ensures
        events_text(a + b) == events_text(a) + events_text(b),
    decreases b.len(),
{
    if b.len() == 0 {
        assert(a + b =~= a);
        assert(events_text(a) + events_text(b) =~= events_text(a));
    } else {
        let b1 = b.subrange(0, b.len() - 1);
        lemma_events_text_concat(a, b1);
        assert((a + b).subrange(0, (a + b).len() - 1) =~= a + b1);
        assert(events_text(a + b) =~= events_text(a) + events_text(b));
    }
}

proof fn lemma_events_text_single(e: MdEvent)
    ensures
        events_text(seq![e]) == event_text(e),
{
    reveal_with_fuel(events_text, 2);
    assert(seq![e].subrange(0, 0) =~= Seq::<MdEvent>::empty());
    assert(events_text(seq![e]) =~= event_text(e));
}

proof fn lemma_runs_text_concat(a: Seq<RichTextView>, b: Seq<RichTextView>)
    ensures
        runs_text(a + b) == runs_text(a) + runs_text(b),
    decreases b.len(),
{
    if b.len() == 0 {
        assert(a + b =~= a);
        assert(runs_text(a) + runs_text(b) =~= runs_text(a));
    } else {
        let b1 = b.subrange(0, b.len() - 1);
        lemma_runs_text_concat(a, b1);
        assert((a + b).subrange(0, (a + b).len() - 1) =~= a + b1);
        assert(runs_text(a + b) =~= runs_text(a) + runs_text(b));
    }
}

proof fn lemma_blocks_text_concat(a: Seq<BlockView>, b: Seq<BlockView>)
    ensures
        blocks_text(a + b) == blocks_text(a) + blocks_text(b),
    decreases b.len(),
{
    if b.len() == 0 {
        assert(a + b =~= a);
        assert(blocks_text(a) + blocks_text(b) =~= blocks_text(a));
    } else {
        let b1 = b.subrange(0, b.len() - 1);
        lemma_blocks_text_concat(a, b1);
        assert((a + b).subrange(0, (a + b).len() - 1) =~= a + b1);
        assert(blocks_text(a + b) =~= blocks_text(a) + blocks_text(b));
    }
}

proof fn lemma_blocks_text_single(b: BlockView)
    ensures
        blocks_text(seq![b]) == block_text(b),
{
    reveal_with_fuel(blocks_text, 2);
    assert(seq![b].subrange(0, 0) =~= Seq::<BlockView>::empty());
    assert(blocks_text(seq![b]) =~= block_text(b));
}

/// The runs read from inline events hold exactly the events' text.
proof fn lemma_inline_run_text(events: Seq<MdEvent>, state: InlineState)
    ensures
        runs_text(inline_run(events, state)) == events_text(events),
    decreases events.len(),
{
    if events.len() > 0 {
        let rest = events.subrange(1, events.len() as int);
        lemma_inline_run_text(rest, inline_next(state, events[0]));
        lemma_runs_text_concat(
            inline_runs(state, events[0]),
            inline_run(rest, inline_next(state, events[0])),
        );
        reveal_with_fuel(runs_text, 2);
        let out = inline_runs(state, events[0]);
        if out.len() > 0 {
            assert(out.subrange(0, 0) =~= Seq::<RichTextView>::empty());
        }
        assert(runs_text(out) =~= event_text(events[0]));
        assert(events =~= seq![events[0]] + rest);
        lemma_events_text_concat(seq![events[0]], rest);
        lemma_events_text_single(events[0]);
    }
}

proof fn lemma_flush_text(pending: Seq<MdEvent>)
    ensures
        blocks_text(flush_view(pending)) == events_text(pending),
{
    if pending.len() > 0 {
        lemma_inline_run_text(pending, inline_start());
        lemma_blocks_text_single(paragraph_block_view(spec_parse_inline(pending)));
        assert(runs_text(spec_parse_inline(pending)) + children_text(None) =~= events_text(
            pending,
        ));
    } else {
        assert(blocks_text(flush_view(pending)) =~= events_text(pending));
    }
}

proof fn lemma_number_items_text(s: Seq<BlockView>)
    ensures
        blocks_text(number_items_view(s)) == blocks_text(s),
    decreases s.len(),
{
    if s.len() > 0 {
        let s1 = s.subrange(0, s.len() - 1);
        lemma_number_items_text(s1);
        assert(number_items_view(s).subrange(0, s.len() - 1) =~= number_items_view(s1));
        let b = s[s.len() - 1];
        assert(number_items_view(s)[s.len() - 1] == numbered_view(b));
        assert(block_text(numbered_view(b)) == block_text(b));
    }
}

proof fn lemma_list_item_text(item_blocks: Seq<BlockView>)
    requires
        all_well_formed(item_blocks),
    ensures
        block_text(list_item_block_view(item_blocks)) == blocks_text(item_blocks),
{
    let item = list_item_block_view(item_blocks);
    if item_blocks.len() > 0 && item_blocks[0].paragraph is Some {
        lemma_all_well_formed_index(item_blocks);
        let first = item_blocks[0];
        let rest = item_blocks.subrange(1, item_blocks.len() as int);
        assert(well_formed_block(first));
        assert(item_blocks =~= seq![first] + rest);
        lemma_blocks_text_concat(seq![first], rest);
        lemma_blocks_text_single(first);
        assert(block_text(first) =~= runs_text(first.paragraph.unwrap().rich_text));
        if rest.len() == 0 {
            assert(blocks_text(rest) =~= Seq::<char>::empty());
        }
        assert(block_text(item) =~= blocks_text(item_blocks));
    } else {
        if item_blocks.len() == 0 {
            assert(blocks_text(item_blocks) =~= Seq::<char>::empty());
        }
        assert(block_text(item) =~= blocks_text(item_blocks));
    }
}

/// The events from `pos` on split at an element's closing event: the
/// opening event, the gathered contents, the closing event (when there is
/// one), and the events after it; the opening and closing events hold no
/// text.
proof fn lemma_gathered_text(events: Seq<MdEvent>, pos: int, tag: MdTag)
    requires
        0 <= pos < events.len(),
        events[pos] == MdEvent::Start(tag),
    ensures
        events_text(events.subrange(pos, events.len() as int)) == events_text(
            events.subrange(pos + 1, gathered_end(events, kind_of(tag), pos + 1)),
        ) + events_text(
            events.subrange(gathered_resume(events, kind_of(tag), pos + 1), events.len() as int),
        ),
{
    let kind = kind_of(tag);
    lemma_find_close_bounds(events, kind, pos + 1, 0);
    let end = gathered_end(events, kind, pos + 1);
    let resume = gathered_resume(events, kind, pos + 1);
    let whole = events.subrange(pos, events.len() as int);
    let inner = events.subrange(pos + 1, end);
    let closing = events.subrange(end, resume);
    let after = events.subrange(resume, events.len() as int);
    assert(whole =~= seq![events[pos]] + inner + closing + after);
    lemma_events_text_concat(seq![events[pos]] + inner + closing, after);
    lemma_events_text_concat(seq![events[pos]] + inner, closing);
    lemma_events_text_concat(seq![events[pos]], inner);
    lemma_events_text_single(events[pos]);
    if resume > end {
        assert(closing =~= seq![events[end]]);
        lemma_events_text_single(events[end]);
    } else {
        assert(closing =~= Seq::<MdEvent>::empty());
    }
    assert(events_text(closing) =~= Seq::<char>::empty());
    assert(events_text(whole) =~= events_text(inner) + events_text(after));
}

/// The blocks made from `pos` on hold the pending events' text followed by
/// the text of the events from `pos` on.
pub proof fn lemma_blocks_from_text(events: Seq<MdEvent>, pos: int, pending: Seq<MdEvent>)
    requires
        0 <= pos <= events.len(),
    ensures
        blocks_text(blocks_from(events, pos, pending)) == events_text(pending) + events_text(
            events.subrange(pos, events.len() as int),
        ),
    decreases events.len() - pos, 0int,
{
    lemma_flush_text(pending);
    if pos >= events.len() {
        assert(events.subrange(pos, events.len() as int) =~= Seq::<MdEvent>::empty());
        assert(events_text(pending) + events_text(Seq::<MdEvent>::empty()) =~= events_text(
            pending,
        ));
    } else {
        let e = events[pos];
        let rest = events.subrange(pos + 1, events.len() as int);
        assert(events.subrange(pos, events.len() as int) =~= seq![e] + rest);
        lemma_events_text_concat(seq![e], rest);
        lemma_events_text_single(e);
        match e {
            MdEvent::Start(tag) => {
                if gathers(tag) {
                    let kind = kind_of(tag);
                    lemma_find_close_bounds(events, kind, pos + 1, 0);
                    let inner = events.subrange(pos + 1, gathered_end(events, kind, pos + 1));
                    let resume = gathered_resume(events, kind, pos + 1);
                    lemma_element_text(tag, inner);
                    lemma_blocks_from_text(events, resume, Seq::empty());
                    lemma_gathered_text(events, pos, tag);
                    lemma_blocks_text_concat(flush_view(pending), element_blocks(tag, inner));
                    lemma_blocks_text_concat(
                        flush_view(pending) + element_blocks(tag, inner),
                        blocks_from(events, resume, Seq::empty()),
                    );
                    assert(events_text(Seq::<MdEvent>::empty()) =~= Seq::<char>::empty());
                    assert(blocks_text(blocks_from(events, pos, pending)) =~= events_text(pending)
                        + events_text(events.subrange(pos, events.len() as int)));
                } else if spec_is_block_tag(tag) {
                    lemma_blocks_from_text(events, pos + 1, Seq::empty());
                    lemma_blocks_text_concat(
                        flush_view(pending),
                        blocks_from(events, pos + 1, Seq::empty()),
                    );
                    assert(events_text(Seq::<MdEvent>::empty()) =~= Seq::<char>::empty());
                    assert(blocks_text(blocks_from(events, pos, pending)) =~= events_text(pending)
                        + events_text(events.subrange(pos, events.len() as int)));
                } else {
                    lemma_blocks_from_text(events, pos + 1, pending.push(e));
                    assert(pending.push(e).subrange(0, pending.len() as int) =~= pending);
                    assert(blocks_text(blocks_from(events, pos, pending)) =~= events_text(pending)
                        + events_text(events.subrange(pos, events.len() as int)));
                }
            },
            _ => {
                lemma_blocks_from_text(events, pos + 1, pending.push(e));
                assert(pending.push(e).subrange(0, pending.len() as int) =~= pending);
                assert(blocks_text(blocks_from(events, pos, pending)) =~= events_text(pending)
                    + events_text(events.subrange(pos, events.len() as int)));
            },
        }
    }
}

/// The blocks an element yields from its gathered contents hold the
/// contents' text.
pub proof fn lemma_element_text(tag: MdTag, inner: Seq<MdEvent>)
    requires
        gathers(tag),
    ensures
        blocks_text(element_blocks(tag, inner)) == events_text(inner),
    decreases inner.len(), 1int,
{
    assert(inner.subrange(0, inner.len() as int) =~= inner);
    assert(events_text(Seq::<MdEvent>::empty()) =~= Seq::<char>::empty());
    match tag {
        MdTag::Paragraph => {
            lemma_inline_run_text(inner, inline_start());
            lemma_blocks_text_single(paragraph_block_view(spec_parse_inline(inner)));
            assert(runs_text(spec_parse_inline(inner)) + children_text(None) =~= events_text(
                inner,
            ));
        },
        MdTag::Heading(level) => {
            lemma_inline_run_text(inner, inline_start());
            lemma_blocks_text_single(heading_block_view(level, spec_parse_inline(inner)));
            assert(runs_text(spec_parse_inline(inner)) + children_text(None) =~= events_text(
                inner,
            ));
        },
        MdTag::List(start) => {
            lemma_blocks_from_text(inner, 0, Seq::empty());
            lemma_number_items_text(blocks_from(inner, 0, Seq::empty()));
            assert(Seq::<char>::empty() + events_text(inner) =~= events_text(inner));
        },
        MdTag::Item => {
            lemma_blocks_from_text(inner, 0, Seq::empty());
            lemma_blocks_from_well_formed(inner, 0, Seq::empty());
            lemma_list_item_text(blocks_from(inner, 0, Seq::empty()));
            lemma_blocks_text_single(list_item_block_view(blocks_from(inner, 0, Seq::empty())));
            assert(Seq::<char>::empty() + events_text(inner) =~= events_text(inner));
        },
        _ => {},
    }
}

/// Law: the parser keeps all the text of a document and its order: the text
/// of the blocks it makes (each block's own runs, then its children's) is the
/// text of the document's text and code spans, front to back.
pub proof fn law_parse_keeps_text(events: Seq<MdEvent>)
    ensures
        blocks_text(spec_parse_events(events)) == events_text(events),
{
    lemma_blocks_from_text(events, 0, Seq::empty());
    assert(events.subrange(0, events.len() as int) =~= events);
    assert(events_text(Seq::<MdEvent>::empty()) + events_text(events) =~= events_text(events));
}

// ---------------------------------------------------------------------------
// Runs
// ---------------------------------------------------------------------------

/// A run as the parser makes it: a plain text run without an href, whose
/// plain text is its content, styled with the default color and no
/// underline.
pub open spec fn plain_run(r: RichTextView) -> bool {
    &&& r.text_type == RichTextType::Text
    &&& r.href is None
    &&& r.text matches Some(t) && r.plain_text == Some(t.content)
    &&& r.annotations matches Some(a) && a.color == "default"@ && !a.underline
}

proof fn lemma_inline_run_plain(events: Seq<MdEvent>, state: InlineState)
    requires
        state.annotations.color == "default"@,
        !state.annotations.underline,
    ensures
        forall|i: int|
            0 <= i < inline_run(events, state).len() ==> plain_run(
                #[trigger] inline_run(events, state)[i],
            ),
    decreases events.len(),
{
    if events.len() > 0 {
        let rest = events.subrange(1, events.len() as int);
        let next = inline_next(state, events[0]);
        lemma_inline_run_plain(rest, next);
        let out = inline_runs(state, events[0]);
        let all = inline_run(events, state);
        assert(all == out + inline_run(rest, next));
        assert forall|i: int| 0 <= i < all.len() implies plain_run(#[trigger] all[i]) by {
            if i < out.len() {
                assert(all[i] == out[i]);
            } else {
                assert(all[i] == inline_run(rest, next)[i - out.len()]);
            }
        }
    }
}

/// Law: every run read from inline events is a plain text run without an
/// href whose plain text equals its content, with the default color and no
/// underline.
pub proof fn law_inline_runs_are_plain_text(events: Seq<MdEvent>)
    ensures
        forall|i: int|
            0 <= i < spec_parse_inline(events).len() ==> plain_run(
                #[trigger] spec_parse_inline(events)[i],
            ),
{
    lemma_inline_run_plain(events, inline_start());
}

// ---------------------------------------------------------------------------
// Styles follow the elements around a span
// ---------------------------------------------------------------------------

/// A style element (strong, emphasis or strikethrough) is open after the
/// events `a`: one of its starts is followed by none of its ends.
pub open spec fn style_open(a: Seq<MdEvent>, tag: MdTag) -> bool {
    exists|k: int|
        0 <= k < a.len() && #[trigger] a[k] == MdEvent::Start(tag) && forall|m: int|
            k < m < a.len() ==> #[trigger] a[m] != MdEvent::End(tag)
}

/// A link start or end.
pub open spec fn is_link_event(e: MdEvent) -> bool {
    e matches MdEvent::Start(MdTag::Link(_)) || e matches MdEvent::End(MdTag::Link(_))
}

/// The destination of a link start.
pub open spec fn url_of(e: MdEvent) -> Seq<char> {
    match e {
        MdEvent::Start(MdTag::Link(u)) => u@,
        _ => Seq::empty(),
    }
}

/// The link opened at `k` is still open after the events `a`: no link event
/// follows it.
pub open spec fn link_open_from(a: Seq<MdEvent>, k: int) -> bool {
    &&& 0 <= k < a.len()
    &&& a[k] matches MdEvent::Start(MdTag::Link(_))
    &&& forall|m: int| k < m < a.len() ==> !is_link_event(#[trigger] a[m])
}

/// The inline state after reading the events `a` from `st`.
pub open spec fn state_after(a: Seq<MdEvent>, st: InlineState) -> InlineState
    decreases a.len(),
{
    if a.len() == 0 {
        st
    } else {
        state_after(a.subrange(1, a.len() as int), inline_next(st, a[0]))
    }
}

proof fn lemma_inline_run_concat(a: Seq<MdEvent>, b: Seq<MdEvent>, st: InlineState)
    ensures
        inline_run(a + b, st) == inline_run(a, st) + inline_run(b, state_after(a, st)),
    decreases a.len(),
{
    if a.len() == 0 {
        assert(a + b =~= b);
        assert(inline_run(a, st) + inline_run(b, st) =~= inline_run(b, st));
    } else {
        let a1 = a.subrange(1, a.len() as int);
        assert((a + b).subrange(1, (a + b).len() as int) =~= a1 + b);
        assert((a + b)[0] == a[0]);
        lemma_inline_run_concat(a1, b, inline_next(st, a[0]));
        assert(inline_run(a + b, st) =~= inline_run(a, st) + inline_run(b, state_after(a, st)));
    }
}

proof fn lemma_state_after_push(a: Seq<MdEvent>, e: MdEvent, st: InlineState)
    ensures
        state_after(a.push(e), st) == inline_next(state_after(a, st), e),
    decreases a.len(),
{
    if a.len() == 0 {
        reveal_with_fuel(state_after, 2);
        assert(a.push(e).subrange(1, 1) =~= Seq::<MdEvent>::empty());
    } else {
        let a1 = a.subrange(1, a.len() as int);
        assert(a.push(e).subrange(1, a.push(e).len() as int) =~= a1.push(e));
        lemma_state_after_push(a1, e, inline_next(st, a[0]));
    }
}

proof fn lemma_style_open_push(a: Seq<MdEvent>, e: MdEvent, tag: MdTag)
    ensures
        style_open(a.push(e), tag) == if e == MdEvent::Start(tag) {
            true
        } else if e == MdEvent::End(tag) {
            false
        } else {
            style_open(a, tag)
        },
{
    let b = a.push(e);
    if e == MdEvent::Start(tag) {
        assert(b[a.len() as int] == MdEvent::Start(tag));
    } else if e == MdEvent::End(tag) {
        if style_open(b, tag) {
            let k = choose|k: int|
                0 <= k < b.len() && #[trigger] b[k] == MdEvent::Start(tag) && forall|m: int|
                    k < m < b.len() ==> #[trigger] b[m] != MdEvent::End(tag);
            assert(b[a.len() as int] == MdEvent::End(tag));
            assert(k != a.len());
        }
    } else {
        if style_open(b, tag) {
            let k = choose|k: int|
                0 <= k < b.len() && #[trigger] b[k] == MdEvent::Start(tag) && forall|m: int|
                    k < m < b.len() ==> #[trigger] b[m] != MdEvent::End(tag);
            assert(b[a.len() as int] == e);
            assert(k < a.len());
            assert(a[k] == b[k]);
            assert forall|m: int| k < m < a.len() implies #[trigger] a[m] != MdEvent::End(tag) by {
                assert(a[m] == b[m]);
            }
        }
        if style_open(a, tag) {
            let k = choose|k: int|
                0 <= k < a.len() && #[trigger] a[k] == MdEvent::Start(tag) && forall|m: int|
                    k < m < a.len() ==> #[trigger] a[m] != MdEvent::End(tag);
            assert(b[k] == a[k]);
            assert forall|m: int| k < m < b.len() implies #[trigger] b[m] != MdEvent::End(tag) by {
                if m < a.len() {
                    assert(b[m] == a[m]);
                }
            }
        }
    }
}

proof fn lemma_link_open_push(a: Seq<MdEvent>, e: MdEvent)
    ensures
        forall|k: int|
            #[trigger] link_open_from(a.push(e), k) == if is_link_event(e) {
                k == a.len() && e matches MdEvent::Start(MdTag::Link(_))
            } else {
                link_open_from(a, k)
            },
{
    let b = a.push(e);
    assert forall|k: int| #[trigger]
        link_open_from(b, k) == if is_link_event(e) {
            k == a.len() && e matches MdEvent::Start(MdTag::Link(_))
        } else {
            link_open_from(a, k)
        } by {
        assert(b[a.len() as int] == e);
        if is_link_event(e) {
            if link_open_from(b, k) && k < a.len() {
                assert(!is_link_event(b[a.len() as int]));
            }
        } else {
            if link_open_from(b, k) {
                assert(k < a.len());
                assert(a[k] == b[k]);
                assert forall|m: int| k < m < a.len() implies !is_link_event(#[trigger] a[m]) by {
                    assert(a[m] == b[m]);
                }
            }
            if link_open_from(a, k) {
                assert(b[k] == a[k]);
                assert forall|m: int| k < m < b.len() implies !is_link_event(#[trigger] b[m]) by {
                    if m < a.len() {
                        assert(b[m] == a[m]);
                    }
                }
            }
        }
    }
}

/// After reading inline events from the start, bold, italic and
/// strikethrough are on exactly while their element is open, nothing is
/// underlined or marked as code, the color is "default", and the link in
/// force is that of the open link element, if any.
proof fn lemma_state_tracks_elements(a: Seq<MdEvent>)
    ensures
        state_after(a, inline_start()).annotations.bold == style_open(a, MdTag::Strong),
        state_after(a, inline_start()).annotations.italic == style_open(a, MdTag::Emphasis),
        state_after(a, inline_start()).annotations.strikethrough == style_open(
            a,
            MdTag::Strikethrough,
        ),
        !state_after(a, inline_start()).annotations.code,
        !state_after(a, inline_start()).annotations.underline,
        state_after(a, inline_start()).annotations.color == "default"@,
        forall|k: int|
            #[trigger] link_open_from(a, k) ==> state_after(a, inline_start()).link == Some(
                url_of(a[k]),
            ),
        (forall|k: int| !#[trigger] link_open_from(a, k)) ==> state_after(
            a,
            inline_start(),
        ).link is None,
    decreases a.len(),
{
    if a.len() > 0 {
        let a0 = a.subrange(0, a.len() - 1);
        let e = a[a.len() - 1];
        assert(a0.push(e) =~= a);
        lemma_state_tracks_elements(a0);
        lemma_state_after_push(a0, e, inline_start());
        lemma_style_open_push(a0, e, MdTag::Strong);
        lemma_style_open_push(a0, e, MdTag::Emphasis);
        lemma_style_open_push(a0, e, MdTag::Strikethrough);
        lemma_link_open_push(a0, e);
        if e matches MdEvent::Start(MdTag::Link(_)) {
            assert(link_open_from(a, a0.len() as int));
        }
        if (forall|k: int| !#[trigger] link_open_from(a, k)) && !is_link_event(e) {
            assert forall|k: int| !#[trigger] link_open_from(a0, k) by {
                assert(!link_open_from(a, k));
            }
        }
    } else {
        assert(!style_open(a, MdTag::Strong));
        assert(!style_open(a, MdTag::Emphasis));
        assert(!style_open(a, MdTag::Strikethrough));
    }
}

/// Law: runs are made front to back: the runs of a sequence of inline events
/// begin with the runs of any prefix of it.
pub proof fn law_inline_runs_extend_prefix(a: Seq<MdEvent>, b: Seq<MdEvent>)
    ensures
        spec_parse_inline(a + b).len() >= spec_parse_inline(a).len(),
        spec_parse_inline(a + b).subrange(0, spec_parse_inline(a).len() as int)
            == spec_parse_inline(a),
{
    lemma_inline_run_concat(a, b, inline_start());
    assert((spec_parse_inline(a) + inline_run(b, state_after(a, inline_start()))).subrange(
        0,
        spec_parse_inline(a).len() as int,
    ) =~= spec_parse_inline(a));
}

/// Law: a text or code span read after the inline events `a` yields one run,
/// the last one, holding the span's text; it is bold, italic or struck through
/// exactly when a strong, emphasis or strikethrough element is open around it
/// (started in `a` and not ended since), marked as code exactly when it is a
/// code span, never underlined, in the default color, and linked to the
/// destination of the link element open around it, or to nothing when none
/// is.
#[verifier::rlimit(30)]
pub proof fn law_inline_styles_follow_elements(a: Seq<MdEvent>, span: MdEvent)
    requires
        span is Text || span is Code,
    ensures
        spec_parse_inline(a.push(span)).len() == spec_parse_inline(a).len() + 1,
        ({
            let run = spec_parse_inline(a.push(span)).last();
            let style = run.annotations.unwrap();
            &&& run.annotations is Some
            &&& run.plain_text == Some(event_text(span))
            &&& run.text matches Some(t) && t.content == event_text(span)
            &&& style.bold == style_open(a, MdTag::Strong)
            &&& style.italic == style_open(a, MdTag::Emphasis)
            &&& style.strikethrough == style_open(a, MdTag::Strikethrough)
            &&& style.code == (span is Code)
            &&& !style.underline
            &&& style.color == "default"@
            &&& forall|k: int| #[trigger]
                link_open_from(a, k) ==> run.text.unwrap().link == Some(url_of(a[k]))
            &&& (forall|k: int| !#[trigger] link_open_from(a, k)) ==> run.text.unwrap().link is None
        }),
{
    lemma_inline_run_concat(a, seq![span], inline_start());
    assert(a + seq![span] =~= a.push(span));
    let st = state_after(a, inline_start());
    lemma_state_tracks_elements(a);
    reveal_with_fuel(inline_run, 2);
    assert(seq![span].subrange(1, 1) =~= Seq::<MdEvent>::empty());
    assert(inline_run(seq![span], st) =~= inline_runs(st, span));
    let all = spec_parse_inline(a.push(span));
    assert(all =~= spec_parse_inline(a) + inline_runs(st, span));
    assert(all.last() == inline_runs(st, span)[0]);
}

// ---------------------------------------------------------------------------
// Gathering stops at the matching end
// ---------------------------------------------------------------------------

/// The number of starts of elements of the kind among the events.
pub open spec fn opens(s: Seq<MdEvent>, kind: int) -> int
    decreases s.len(),
{
    if s.len() == 0 {
        0
    } else {
        opens(s.subrange(0, s.len() - 1), kind) + if s.last() matches MdEvent::Start(t)
            && kind_of(t) == kind {
            1int
        } else {
            0int
        }
    }
}

/// The number of ends of elements of the kind among the events.
pub open spec fn closes(s: Seq<MdEvent>, kind: int) -> int
    decreases s.len(),
{
    if s.len() == 0 {
        0
    } else {
        closes(s.subrange(0, s.len() - 1), kind) + if s.last() matches MdEvent::End(t)
            && kind_of(t) == kind {
            1int
        } else {
            0int
        }
    }
}

/// No prefix of the events from `start` to any `j <= end` ends more elements
/// of the kind than it starts.
pub open spec fn never_over_closed(events: Seq<MdEvent>, kind: int, start: int, end: int) -> bool {
    forall|j: int|
        start <= j <= end ==> closes(#[trigger] events.subrange(start, j), kind) <= opens(
            events.subrange(start, j),
            kind,
        )
}

proof fn lemma_find_close_balanced(events: Seq<MdEvent>, kind: int, start: int, i: int, n: nat)
    requires
        0 <= start <= i <= events.len(),
        n == opens(events.subrange(start, i), kind) - closes(events.subrange(start, i), kind),
        never_over_closed(events, kind, start, i),
    ensures
        match find_close(events, kind, i, n) {
            Some(c) => {
                &&& i <= c < events.len()
                &&& events[c] matches MdEvent::End(t) && kind_of(t) == kind
                &&& opens(events.subrange(start, c), kind) == closes(events.subrange(start, c), kind)
                &&& never_over_closed(events, kind, start, c)
            },
            None => never_over_closed(events, kind, start, events.len() as int),
        },
    decreases events.len() - i,
{
    if i < events.len() {
        let next = events.subrange(start, i + 1);
        assert(next.subrange(0, next.len() - 1) =~= events.subrange(start, i));
        assert(next.last() == events[i]);
        let o = opens(next, kind);
        let c = closes(next, kind);
        match events[i] {
            MdEvent::Start(t) => {
                if kind_of(t) == kind {
                    assert(never_over_closed(events, kind, start, i + 1));
                    lemma_find_close_balanced(events, kind, start, i + 1, n + 1);
                } else {
                    assert(never_over_closed(events, kind, start, i + 1));
                    lemma_find_close_balanced(events, kind, start, i + 1, n);
                }
            },
            MdEvent::End(t) => {
                if kind_of(t) == kind {
                    if n > 0 {
                        assert(never_over_closed(events, kind, start, i + 1));
                        lemma_find_close_balanced(events, kind, start, i + 1, (n - 1) as nat);
                    }
                } else {
                    assert(never_over_closed(events, kind, start, i + 1));
                    lemma_find_close_balanced(events, kind, start, i + 1, n);
                }
            },
            _ => {
                assert(never_over_closed(events, kind, start, i + 1));
                lemma_find_close_balanced(events, kind, start, i + 1, n);
            },
        }
    }
}

/// Law: an element's contents are gathered up to the end event that matches
/// its start, at any depth of nesting: when a closing event is found, it is an
/// end of the element's kind, the gathered events start and end equally many
/// elements of that kind, and no prefix of them ends more than it starts (so
/// the closing event is the first end that would leave more ends than starts).
/// When none is found, no prefix of the remaining events does.
pub proof fn law_gathered_contents_balanced(events: Seq<MdEvent>, kind: int, start: int)
    requires
        0 <= start <= events.len(),
    ensures
        match find_close(events, kind, start, 0) {
            Some(c) => {
                &&& start <= c < events.len()
                &&& events[c] matches MdEvent::End(t) && kind_of(t) == kind
                &&& opens(events.subrange(start, c), kind) == closes(events.subrange(start, c), kind)
                &&& never_over_closed(events, kind, start, c)
                &&& gathered_end(events, kind, start) == c
                &&& gathered_resume(events, kind, start) == c + 1
            },
            None => {
                &&& never_over_closed(events, kind, start, events.len() as int)
                &&& gathered_end(events, kind, start) == events.len()
                &&& gathered_resume(events, kind, start) == events.len()
            },
        },
{
    assert(events.subrange(start, start) =~= Seq::<MdEvent>::empty());
    assert(never_over_closed(events, kind, start, start)) by {
        assert forall|j: int| start <= j <= start implies closes(
            #[trigger] events.subrange(start, j),
            kind,
        ) <= opens(events.subrange(start, j), kind) by {
            assert(events.subrange(start, j) =~= Seq::<MdEvent>::empty());
        }
    }
    lemma_find_close_balanced(events, kind, start, start, 0);
}

// ---------------------------------------------------------------------------
// List items and headings
// ---------------------------------------------------------------------------

/// The number of children of a list item.
pub open spec fn child_count(item: TextBlockView) -> int {
    match item.children {
        Some(c) => c.len() as int,
        None => 0,
    }
}

/// Law: a list item's text is the text of the first block read inside it when
/// that block is a paragraph, and its children are exactly the other blocks,
/// in order: one child fewer than the blocks read inside it. When the first
/// block is not a paragraph, the item has no text and all the blocks are its
/// children.
pub proof fn law_list_item_first_paragraph(inner: Seq<MdEvent>)
    ensures
        ({
            let blocks = spec_parse_events(inner);
            let out = element_blocks(MdTag::Item, inner);
            let takes = blocks.len() > 0 && blocks[0].block_type == BlockType::Paragraph;
            let skip: int = if takes { 1 } else { 0 };
            let item = out[0].bulleted_list_item.unwrap();
            &&& out.len() == 1
            &&& out[0].block_type == BlockType::BulletedListItem
            &&& out[0].bulleted_list_item is Some
            &&& takes ==> item.rich_text == blocks[0].paragraph.unwrap().rich_text
            &&& !takes ==> item.rich_text.len() == 0
            &&& child_count(item) == blocks.len() - skip
            &&& forall|i: int|
                0 <= i < child_count(item) ==> #[trigger] item.children.unwrap()[i] == blocks[i
                    + skip]
        }),
{
    let blocks = spec_parse_events(inner);
    law_parsed_blocks_well_formed(inner);
    if blocks.len() > 0 {
        assert(well_formed_block(blocks[0]));
    }
}

/// Where a Notion heading type ranks: 1 for the top level, then 2 and 3.
pub open spec fn heading_rank(t: BlockType) -> int {
    match t {
        BlockType::Heading1 => 1,
        BlockType::Heading2 => 2,
        BlockType::Heading3 => 3,
        _ => 0,
    }
}

/// Law: a heading of level 1 becomes a level-1 heading block, level 2 a
/// level-2 one, and every deeper level a level-3 one, holding the text read
/// inside the heading; so a deeper markdown heading never ranks above a
/// shallower one.
pub proof fn law_heading_levels(level: u8, other: u8, inner: Seq<MdEvent>)
    requires
        1 <= level <= 6,
        1 <= other <= 6,
    ensures
        ({
            let out = element_blocks(MdTag::Heading(level), inner);
            &&& out.len() == 1
            &&& level == 1 ==> out[0].block_type == BlockType::Heading1 && out[0].heading_1 is Some
                && out[0].heading_1.unwrap().rich_text == spec_parse_inline(inner)
            &&& level == 2 ==> out[0].block_type == BlockType::Heading2 && out[0].heading_2 is Some
                && out[0].heading_2.unwrap().rich_text == spec_parse_inline(inner)
            &&& level >= 3 ==> out[0].block_type == BlockType::Heading3 && out[0].heading_3 is Some
                && out[0].heading_3.unwrap().rich_text == spec_parse_inline(inner)
            &&& heading_rank(out[0].block_type) == if level <= 2 { level as int } else { 3 }
        }),
        level <= other ==> heading_rank(element_blocks(MdTag::Heading(level), inner)[0].block_type)
            <= heading_rank(element_blocks(MdTag::Heading(other), inner)[0].block_type),
{
}

/// Law: an unordered list yields exactly the blocks read inside it; an
/// ordered list yields as many blocks, in the same order, each bulleted item
/// turned into a numbered item with the same content and every other block
/// unchanged.
pub proof fn law_list_blocks(start: Option<u64>, inner: Seq<MdEvent>)
    ensures
        ({
            let blocks = spec_parse_events(inner);
            let out = element_blocks(MdTag::List(start), inner);
            &&& start is None ==> out == blocks
            &&& out.len() == blocks.len()
            &&& start is Some ==> forall|i: int|
                0 <= i < blocks.len() ==> if (#[trigger] blocks[i]).block_type
                    == BlockType::BulletedListItem {
                    &&& out[i].block_type == BlockType::NumberedListItem
                    &&& out[i].numbered_list_item == blocks[i].bulleted_list_item
                    &&& out[i].bulleted_list_item is None
                    &&& out[i].paragraph == blocks[i].paragraph
                    &&& out[i].object == blocks[i].object
                } else {
                    out[i] == blocks[i]
                }
        }),
{
    let blocks = spec_parse_events(inner);
    law_parsed_blocks_well_formed(inner);
    if start is Some {
        assert forall|i: int| 0 <= i < blocks.len() implies if (#[trigger] blocks[i]).block_type
            == BlockType::BulletedListItem {
            &&& element_blocks(MdTag::List(start), inner)[i].block_type
                == BlockType::NumberedListItem
            &&& element_blocks(MdTag::List(start), inner)[i].numbered_list_item
                == blocks[i].bulleted_list_item
            &&& element_blocks(MdTag::List(start), inner)[i].bulleted_list_item is None
            &&& element_blocks(MdTag::List(start), inner)[i].paragraph == blocks[i].paragraph
            &&& element_blocks(MdTag::List(start), inner)[i].object == blocks[i].object
        } else {
            element_blocks(MdTag::List(start), inner)[i] == blocks[i]
        } by {
            assert(well_formed_block(blocks[i]));
        }
    }
}

/// Law: a paragraph element yields one paragraph block holding the runs read
/// from its contents, with no children and no color.
pub proof fn law_paragraph_block(inner: Seq<MdEvent>)
    ensures
        element_blocks(MdTag::Paragraph, inner).len() == 1,
        element_blocks(MdTag::Paragraph, inner)[0].block_type == BlockType::Paragraph,
        element_blocks(MdTag::Paragraph, inner)[0].paragraph == Some(
            TextBlockView { rich_text: spec_parse_inline(inner), children: None, color: None },
        ),
{
}

/// Whether an event starts a block element.
pub open spec fn starts_block(e: MdEvent) -> bool {
    e matches MdEvent::Start(t) && spec_is_block_tag(t)
}

proof fn lemma_inline_only(events: Seq<MdEvent>, pos: int, pending: Seq<MdEvent>)
    requires
        0 <= pos <= events.len(),
        forall|i: int| 0 <= i < events.len() ==> !starts_block(#[trigger] events[i]),
    ensures
        blocks_from(events, pos, pending) == flush_view(
            pending + events.subrange(pos, events.len() as int),
        ),
    decreases events.len() - pos,
{
    if pos >= events.len() {
        assert(pending + events.subrange(pos, events.len() as int) =~= pending);
    } else {
        assert(!starts_block(events[pos]));
        lemma_inline_only(events, pos + 1, pending.push(events[pos]));
        assert(pending.push(events[pos]) + events.subrange(pos + 1, events.len() as int)
            =~= pending + events.subrange(pos, events.len() as int));
    }
}

/// Law: a document without block elements (only inline events) becomes a
/// single paragraph holding all its runs, or no block at all when it has no
/// events.
pub proof fn law_inline_document_is_one_paragraph(events: Seq<MdEvent>)
    requires
        forall|i: int| 0 <= i < events.len() ==> !starts_block(#[trigger] events[i]),
    ensures
        events.len() == 0 ==> spec_parse_events(events).len() == 0,
        events.len() > 0 ==> spec_parse_events(events) == seq![
            paragraph_block_view(spec_parse_inline(events)),
        ],
        events.len() > 0 ==> spec_parse_events(events)[0].block_type == BlockType::Paragraph
            && spec_parse_events(events)[0].paragraph == Some(
            TextBlockView { rich_text: spec_parse_inline(events), children: None, color: None },
        ),
{
    lemma_inline_only(events, 0, Seq::empty());
    assert(Seq::<MdEvent>::empty() + events.subrange(0, events.len() as int) =~= events);
}

} // verus!
