//! The markdown events that the block parser consumes, and how a document
//! becomes a sequence of them through pulldown-cmark.
use vstd::prelude::*;
use pulldown_cmark::{Event, Parser, Tag};

verus! {

#[verifier::external_type_specification]
#[verifier::external_body]
pub struct ExTag<'a>(Tag<'a>);

/// The element a start or end event delimits, holding what the block
/// parser reads of it.
///
/// `Other` stands for the elements that the block parser never tells apart:
/// footnote definitions, tables and their parts, and images.
#[derive(Debug)]
pub enum MdTag {
    Paragraph,
    /// A heading of the given level, 1 to 6.
    Heading(u8),
    BlockQuote,
    CodeBlock,
    /// A list; ordered lists carry the number of their first item.
    List(Option<u64>),
    Item,
    Emphasis,
    Strong,
    Strikethrough,
    /// A link to the given destination url.
    Link(String),
    Other,
}

/// One markdown event, as a document is read from front to back.
#[derive(Debug)]
pub enum MdEvent {
    /// The start of an element; the events up to the matching end are inside it.
    Start(MdTag),
    /// The end of an element.
    End(MdTag),
    /// A span of text.
    Text(String),
    /// An inline code span.
    Code(String),
    /// Raw HTML, whose text the block parser does not read.
    Html,
    /// A reference to a footnote.
    FootnoteReference,
    SoftBreak,
    HardBreak,
    /// A horizontal rule.
    Rule,
    /// A task list checkbox, checked or not.
    TaskListMarker(bool),
}

impl Clone for MdTag {
    fn clone(&self) -> (c: Self)
        ensures
            c == *self,
    {
        match self {
            MdTag::Paragraph => MdTag::Paragraph,
            MdTag::Heading(level) => MdTag::Heading(*level),
            MdTag::BlockQuote => MdTag::BlockQuote,
            MdTag::CodeBlock => MdTag::CodeBlock,
            MdTag::List(start) => MdTag::List(*start),
            MdTag::Item => MdTag::Item,
            MdTag::Emphasis => MdTag::Emphasis,
            MdTag::Strong => MdTag::Strong,
            MdTag::Strikethrough => MdTag::Strikethrough,
            MdTag::Link(url) => MdTag::Link(url.clone()),
            MdTag::Other => MdTag::Other,
        }
    }
}

impl Clone for MdEvent {
    fn clone(&self) -> (c: Self)
        ensures
            c == *self,
    {
        match self {
            MdEvent::Start(tag) => MdEvent::Start(tag.clone()),
            MdEvent::End(tag) => MdEvent::End(tag.clone()),
            MdEvent::Text(text) => MdEvent::Text(text.clone()),
            MdEvent::Code(code) => MdEvent::Code(code.clone()),
            MdEvent::Html => MdEvent::Html,
            MdEvent::FootnoteReference => MdEvent::FootnoteReference,
            MdEvent::SoftBreak => MdEvent::SoftBreak,
            MdEvent::HardBreak => MdEvent::HardBreak,
            MdEvent::Rule => MdEvent::Rule,
            MdEvent::TaskListMarker(checked) => MdEvent::TaskListMarker(*checked),
        }
    }
}

/// An event as pulldown-cmark hands it out, its tag not yet read.
pub enum SourceEvent<'a> {
    Start(Tag<'a>),
    End(Tag<'a>),
    Text(String),
    Code(String),
    Html,
    FootnoteReference,
    SoftBreak,
    HardBreak,
    Rule,
    TaskListMarker(bool),
}

/// The events that pulldown-cmark's `Parser::new` yields for a document,
/// each read as an `MdEvent`.
pub uninterp spec fn markdown_events(content: Seq<char>) -> Seq<MdEvent>;

/// What the library reads of one pulldown-cmark tag.
pub uninterp spec fn tag_model(tag: Tag) -> MdTag;

/// The event that a pulldown-cmark event is read as.
pub open spec fn source_model(e: SourceEvent) -> MdEvent {
    match e {
        SourceEvent::Start(t) => MdEvent::Start(tag_model(t)),
        SourceEvent::End(t) => MdEvent::End(tag_model(t)),
        SourceEvent::Text(s) => MdEvent::Text(s),
        SourceEvent::Code(s) => MdEvent::Code(s),
        SourceEvent::Html => MdEvent::Html,
        SourceEvent::FootnoteReference => MdEvent::FootnoteReference,
        SourceEvent::SoftBreak => MdEvent::SoftBreak,
        SourceEvent::HardBreak => MdEvent::HardBreak,
        SourceEvent::Rule => MdEvent::Rule,
        SourceEvent::TaskListMarker(b) => MdEvent::TaskListMarker(b),
    }
}

/// Runs pulldown-cmark's `Parser::new` (no extensions) over `content` and
/// collects the events it yields, in order. Claimed: reading each tag with
/// `tag_model` gives `markdown_events(content)`; that is, the name stands for
/// exactly this sequence, a function of the text alone.
#[verifier::external_body]
fn source_events(content: &str) -> (events: Vec<SourceEvent<'_>>)
    ensures
        events@.map_values(|e: SourceEvent| source_model(e)) == markdown_events(content@),
{
    Parser::new(content).map(|event| match event {
        Event::Start(tag) => SourceEvent::Start(tag),
        Event::End(tag) => SourceEvent::End(tag),
        Event::Text(text) => SourceEvent::Text(text.to_string()),
        Event::Code(code) => SourceEvent::Code(code.to_string()),
        Event::Html(_) => SourceEvent::Html,
        Event::FootnoteReference(_) => SourceEvent::FootnoteReference,
        Event::SoftBreak => SourceEvent::SoftBreak,
        Event::HardBreak => SourceEvent::HardBreak,
        Event::Rule => SourceEvent::Rule,
        Event::TaskListMarker(checked) => SourceEvent::TaskListMarker(checked),
    }).collect()
}

/// Reads a pulldown-cmark `Tag` as an `MdTag`: the heading level as its
/// number, the list's start number, the link's destination url. Claimed:
/// the result is `tag_model(tag)`.
#[verifier::external_body]
fn tag_of(tag: &Tag) -> (m: MdTag)
    ensures
        m == tag_model(*tag),
{
    match tag {
        Tag::Paragraph => MdTag::Paragraph,
        Tag::Heading(level, _, _) => MdTag::Heading(*level as u8),
        Tag::BlockQuote => MdTag::BlockQuote,
        Tag::CodeBlock(_) => MdTag::CodeBlock,
        Tag::List(start) => MdTag::List(*start),
        Tag::Item => MdTag::Item,
        Tag::Emphasis => MdTag::Emphasis,
        Tag::Strong => MdTag::Strong,
        Tag::Strikethrough => MdTag::Strikethrough,
        Tag::Link(_, url, _) => MdTag::Link(url.to_string()),
        Tag::FootnoteDefinition(_) | Tag::Table(_) | Tag::TableHead | Tag::TableRow
        | Tag::TableCell | Tag::Image(..) => MdTag::Other,
    }
}

/// Law: reading a pulldown-cmark event keeps it as it is: a start or end
/// event stays a start or end event of the tag as `tag_model` reads it (an
/// ordered list stays ordered, with its start number, whatever that number
/// is), text and code spans keep their text, and every other event keeps its
/// kind.
pub proof fn law_reading_keeps_events(tag: Tag, text: String, checked: bool)
    ensures
        source_model(SourceEvent::Start(tag)) == MdEvent::Start(tag_model(tag)),
        source_model(SourceEvent::End(tag)) == MdEvent::End(tag_model(tag)),
        tag_model(tag) matches MdTag::List(Some(n)) ==> source_model(SourceEvent::Start(tag))
            == MdEvent::Start(MdTag::List(Some(n))) && source_model(SourceEvent::End(tag))
            == MdEvent::End(MdTag::List(Some(n))),
        source_model(SourceEvent::Text(text)) == MdEvent::Text(text),
        source_model(SourceEvent::Code(text)) == MdEvent::Code(text),
        source_model(SourceEvent::Html) == MdEvent::Html,
        source_model(SourceEvent::FootnoteReference) == MdEvent::FootnoteReference,
        source_model(SourceEvent::SoftBreak) == MdEvent::SoftBreak,
        source_model(SourceEvent::HardBreak) == MdEvent::HardBreak,
        source_model(SourceEvent::Rule) == MdEvent::Rule,
        source_model(SourceEvent::TaskListMarker(checked)) == MdEvent::TaskListMarker(checked),
{
}

/// The markdown events of a document, front to back.
pub fn markdown_to_events(content: &str) -> (events: Vec<MdEvent>)
    ensures
        events@ == markdown_events(content@),
{
    let source = source_events(content);
    let ghost model = source@.map_values(|e: SourceEvent| source_model(e));
    let mut events: Vec<MdEvent> = Vec::new();
    let mut i: usize = 0;
    while i < source.len()
        invariant
            0 <= i <= source.len(),
            model == source@.map_values(|e: SourceEvent| source_model(e)),
            events@ == model.subrange(0, i as int),
        decreases source.len() - i,
    {
        let event = match &source[i] {
            SourceEvent::Start(tag) => MdEvent::Start(tag_of(tag)),
            SourceEvent::End(tag) => MdEvent::End(tag_of(tag)),
            SourceEvent::Text(text) => MdEvent::Text(text.clone()),
            SourceEvent::Code(code) => MdEvent::Code(code.clone()),
            SourceEvent::Html => MdEvent::Html,
            SourceEvent::FootnoteReference => MdEvent::FootnoteReference,
            SourceEvent::SoftBreak => MdEvent::SoftBreak,
            SourceEvent::HardBreak => MdEvent::HardBreak,
            SourceEvent::Rule => MdEvent::Rule,
            SourceEvent::TaskListMarker(checked) => MdEvent::TaskListMarker(*checked),
        };
        events.push(event);
        i = i + 1;
        assert(events@ =~= model.subrange(0, i as int));
    }
    assert(model.subrange(0, i as int) =~= model);
    events
}

} // verus!
