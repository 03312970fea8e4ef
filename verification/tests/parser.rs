use md2notion::markdown::{markdown_to_events, MdEvent, MdTag};
use md2notion::notion::{Block, BlockType, RichText};
use md2notion::parser::{parse_inline, parse_markdown};

/// The inline events of a one-paragraph document: its events without the
/// paragraph's start and end.
fn inline_events(md: &str) -> Vec<MdEvent> {
    markdown_to_events(md)
        .into_iter()
        .filter(|e| !matches!(e, MdEvent::Start(MdTag::Paragraph) | MdEvent::End(MdTag::Paragraph)))
        .collect()
}

fn plain(rt: &RichText) -> &str {
    rt.plain_text.as_ref().unwrap()
}

#[test]
fn test_parse_inline_plain_text() {
    let md = "hello world";
    let events = inline_events(md);
    let rich_text = parse_inline(&events);
    assert_eq!(rich_text.len(), 1);
    assert_eq!(rich_text[0].plain_text.as_ref().unwrap(), "hello world");
}

#[test]
fn test_parse_inline_bold() {
    let md = "**bold**";
    let events = inline_events(md);
    let rich_text = parse_inline(&events);
    assert_eq!(rich_text.len(), 1);
    assert_eq!(rich_text[0].plain_text.as_ref().unwrap(), "bold");
    assert!(rich_text[0].annotations.as_ref().unwrap().bold);
}

#[test]
fn test_parse_paragraph() {
    let md = "hello world";
    let blocks = parse_markdown(md).unwrap();
    assert_eq!(blocks.len(), 1);
    match blocks[0].block_type {
        BlockType::Paragraph => {
            let p = blocks[0].paragraph.as_ref().unwrap();
            assert_eq!(p.rich_text.len(), 1);
            assert_eq!(p.rich_text[0].plain_text.as_ref().unwrap(), "hello world");
        }
        _ => panic!("Expected Paragraph"),
    }
}

#[test]
fn test_parse_heading() {
    let md = "# Heading 1";
    let blocks = parse_markdown(md).unwrap();
    assert_eq!(blocks.len(), 1);
    match blocks[0].block_type {
        BlockType::Heading1 => {
            let h = blocks[0].heading_1.as_ref().unwrap();
            assert_eq!(h.rich_text[0].plain_text.as_ref().unwrap(), "Heading 1");
        }
        _ => panic!("Expected Heading1"),
    }
}

#[test]
fn test_parse_list() {
    let md = "* Item 1\n* Item 2";
    let blocks = parse_markdown(md).unwrap();
    assert_eq!(blocks.len(), 2);
    assert!(matches!(blocks[0].block_type, BlockType::BulletedListItem));
    assert!(matches!(blocks[1].block_type, BlockType::BulletedListItem));
    assert_eq!(blocks[0].bulleted_list_item.as_ref().unwrap().rich_text[0].plain_text.as_ref().unwrap(), "Item 1");
}

#[test]
fn test_parse_nested_list() {
    let md = "* Item 1\n  * Nested";
    let blocks = parse_markdown(md).unwrap();
    assert_eq!(blocks.len(), 1);
    let item = blocks[0].bulleted_list_item.as_ref().unwrap();
    assert!(item.children.is_some());
    let children = item.children.as_ref().unwrap();
    assert_eq!(children.len(), 1);
    assert!(matches!(children[0].block_type, BlockType::BulletedListItem));
    assert_eq!(children[0].bulleted_list_item.as_ref().unwrap().rich_text[0].plain_text.as_ref().unwrap(), "Nested");
}

// ---------------------------------------------------------------------------
// Constructors
// ---------------------------------------------------------------------------

#[test]
fn new_block_is_empty() {
    let b = Block::new(BlockType::Quote);
    assert_eq!(b.object, "block");
    assert!(matches!(b.block_type, BlockType::Quote));
    assert!(b.paragraph.is_none() && b.heading_1.is_none() && b.heading_2.is_none());
    assert!(b.heading_3.is_none() && b.bulleted_list_item.is_none());
    assert!(b.numbered_list_item.is_none() && b.to_do.is_none() && b.code.is_none());
    assert!(b.quote.is_none() && b.divider.is_none());
}

#[test]
fn text_run_with_link() {
    let rt = RichText::text("see".to_string(), Some("https://example.com".to_string()));
    assert_eq!(plain(&rt), "see");
    let t = rt.text.as_ref().unwrap();
    assert_eq!(t.content, "see");
    assert_eq!(t.link.as_ref().unwrap().url, "https://example.com");
    let a = rt.annotations.as_ref().unwrap();
    assert!(!a.bold && !a.italic && !a.strikethrough && !a.underline && !a.code);
    assert_eq!(a.color, "default");
    assert!(rt.href.is_none());
}

#[test]
fn text_run_without_link() {
    let rt = RichText::text("x".to_string(), None);
    assert!(rt.text.as_ref().unwrap().link.is_none());
    assert_eq!(plain(&rt), "x");
}

#[test]
fn default_annotations() {
    let a = md2notion::notion::Annotations::default();
    assert!(!a.bold && !a.italic && !a.strikethrough && !a.underline && !a.code);
    assert_eq!(a.color, "default");
}
