use md2notion::markdown::{markdown_to_events, MdEvent, MdTag};
use md2notion::notion::{Block, BlockType, RichText};
use md2notion::parser::{collect_events_until, is_block_tag, parse_events, parse_inline, parse_markdown, tag_kind};

fn runs_of(b: &Block) -> &Vec<RichText> {
    match b.block_type {
        BlockType::Paragraph => &b.paragraph.as_ref().unwrap().rich_text,
        BlockType::Heading1 => &b.heading_1.as_ref().unwrap().rich_text,
        BlockType::Heading2 => &b.heading_2.as_ref().unwrap().rich_text,
        BlockType::Heading3 => &b.heading_3.as_ref().unwrap().rich_text,
        BlockType::BulletedListItem => &b.bulleted_list_item.as_ref().unwrap().rich_text,
        BlockType::NumberedListItem => &b.numbered_list_item.as_ref().unwrap().rich_text,
        _ => panic!("unexpected block type"),
    }
}

fn children_of(b: &Block) -> Option<&Vec<Block>> {
    match b.block_type {
        BlockType::BulletedListItem => b.bulleted_list_item.as_ref().unwrap().children.as_ref(),
        BlockType::NumberedListItem => b.numbered_list_item.as_ref().unwrap().children.as_ref(),
        _ => None,
    }
}

/// The text of blocks, each block's runs then its children, in order.
fn blocks_text(blocks: &[Block]) -> String {
    let mut s = String::new();
    for b in blocks {
        for r in runs_of(b) {
            s.push_str(r.plain_text.as_ref().unwrap());
        }
        if let Some(c) = children_of(b) {
            s.push_str(&blocks_text(c));
        }
    }
    s
}

fn events_text(events: &[MdEvent]) -> String {
    let mut s = String::new();
    for e in events {
        match e {
            MdEvent::Text(t) | MdEvent::Code(t) => s.push_str(t),
            _ => {}
        }
    }
    s
}

fn text(s: &str) -> MdEvent {
    MdEvent::Text(s.to_string())
}

#[test]
fn events_of_a_heading() {
    let events = markdown_to_events("## Title");
    assert_eq!(events.len(), 3);
    assert!(matches!(events[0], MdEvent::Start(MdTag::Heading(2))));
    assert!(matches!(&events[1], MdEvent::Text(t) if t == "Title"));
    assert!(matches!(events[2], MdEvent::End(MdTag::Heading(2))));
}

#[test]
fn events_of_a_link() {
    let events = markdown_to_events("[site](https://example.com)");
    assert!(events.iter().any(|e| matches!(e, MdEvent::Start(MdTag::Link(u)) if u == "https://example.com")));
}

#[test]
fn empty_document_has_no_blocks() {
    assert_eq!(parse_markdown("").unwrap().len(), 0);
}

#[test]
fn heading_levels() {
    let blocks = parse_markdown("# a\n\n## b\n\n### c\n\n#### d").unwrap();
    assert_eq!(blocks.len(), 4);
    assert!(matches!(blocks[0].block_type, BlockType::Heading1));
    assert!(blocks[0].heading_1.is_some());
    assert!(matches!(blocks[1].block_type, BlockType::Heading2));
    assert!(blocks[1].heading_2.is_some());
    assert!(matches!(blocks[2].block_type, BlockType::Heading3));
    assert!(matches!(blocks[3].block_type, BlockType::Heading3));
    assert!(blocks[3].heading_3.is_some());
    assert_eq!(runs_of(&blocks[3])[0].plain_text.as_deref(), Some("d"));
}

#[test]
fn ordered_list_is_numbered() {
    let blocks = parse_markdown("1. one\n2. two").unwrap();
    assert_eq!(blocks.len(), 2);
    for b in &blocks {
        assert!(matches!(b.block_type, BlockType::NumberedListItem));
        assert!(b.numbered_list_item.is_some());
        assert!(b.bulleted_list_item.is_none());
    }
    assert_eq!(runs_of(&blocks[1])[0].plain_text.as_deref(), Some("two"));
}

#[test]
fn inline_styles_and_links() {
    let md = "*it* plain [link](https://x.org) `code` **b**";
    let events: Vec<MdEvent> = markdown_to_events(md)
        .into_iter()
        .filter(|e| !matches!(e, MdEvent::Start(MdTag::Paragraph) | MdEvent::End(MdTag::Paragraph)))
        .collect();
    let runs = parse_inline(&events);
    let texts: Vec<&str> = runs.iter().map(|r| r.plain_text.as_deref().unwrap()).collect();
    assert_eq!(texts, vec!["it", " plain ", "link", " ", "code", " ", "b"]);
    assert!(runs[0].annotations.as_ref().unwrap().italic);
    assert!(!runs[1].annotations.as_ref().unwrap().italic);
    assert_eq!(runs[2].text.as_ref().unwrap().link.as_ref().unwrap().url, "https://x.org");
    assert!(runs[3].text.as_ref().unwrap().link.is_none());
    assert!(runs[4].annotations.as_ref().unwrap().code);
    assert!(!runs[5].annotations.as_ref().unwrap().code);
    assert!(runs[6].annotations.as_ref().unwrap().bold);
    for r in &runs {
        assert!(r.href.is_none());
        assert_eq!(r.annotations.as_ref().unwrap().color, "default");
    }
}

#[test]
fn block_quote_leaves_an_empty_paragraph() {
    // The quote's own start is dropped and its end is pending inline text,
    // which becomes a paragraph without runs.
    let blocks = parse_markdown("> quoted").unwrap();
    assert_eq!(blocks.len(), 2);
    assert!(matches!(blocks[0].block_type, BlockType::Paragraph));
    assert_eq!(runs_of(&blocks[0])[0].plain_text.as_deref(), Some("quoted"));
    assert!(matches!(blocks[1].block_type, BlockType::Paragraph));
    assert_eq!(runs_of(&blocks[1]).len(), 0);
}

#[test]
fn code_block_becomes_a_paragraph() {
    let blocks = parse_markdown("```\nlet x = 1;\n```").unwrap();
    assert_eq!(blocks.len(), 1);
    assert!(matches!(blocks[0].block_type, BlockType::Paragraph));
    assert_eq!(runs_of(&blocks[0])[0].plain_text.as_deref(), Some("let x = 1;\n"));
}

#[test]
fn rule_becomes_an_empty_paragraph() {
    let blocks = parse_markdown("---").unwrap();
    assert_eq!(blocks.len(), 1);
    assert!(matches!(blocks[0].block_type, BlockType::Paragraph));
    assert_eq!(runs_of(&blocks[0]).len(), 0);
}

#[test]
fn item_starting_with_a_heading_keeps_it_as_a_child() {
    let blocks = parse_markdown("* # Head").unwrap();
    assert_eq!(blocks.len(), 1);
    let item = blocks[0].bulleted_list_item.as_ref().unwrap();
    assert_eq!(item.rich_text.len(), 0);
    let children = item.children.as_ref().unwrap();
    assert_eq!(children.len(), 1);
    assert!(matches!(children[0].block_type, BlockType::Heading1));
}

#[test]
fn item_without_nested_blocks_has_no_children() {
    let blocks = parse_markdown("- single").unwrap();
    let item = blocks[0].bulleted_list_item.as_ref().unwrap();
    assert!(item.children.is_none());
    assert_eq!(item.rich_text[0].plain_text.as_deref(), Some("single"));
}

#[test]
fn text_is_kept_in_order() {
    let md = "# Title\n\nSome *styled* text.\n\n* one\n* two\n  1. deep `code`\n\n> quote\n\nend";
    let events = markdown_to_events(md);
    let blocks = parse_markdown(md).unwrap();
    assert_eq!(blocks_text(&blocks), events_text(&events));
    assert_eq!(blocks_text(&blocks), "TitleSome styled text.onetwodeep codequoteend");
}

#[test]
fn parsed_blocks_are_well_formed() {
    let blocks = parse_markdown("text\n\n## h\n\n* a\n  * b\n\n1. c").unwrap();
    fn check(blocks: &[Block]) {
        for b in blocks {
            assert_eq!(b.object, "block");
            let count = [b.paragraph.is_some(), b.heading_1.is_some(), b.heading_2.is_some(),
                b.heading_3.is_some(), b.bulleted_list_item.is_some(), b.numbered_list_item.is_some(),
                b.to_do.is_some(), b.code.is_some(), b.quote.is_some(), b.divider.is_some()]
                .iter().filter(|x| **x).count();
            assert_eq!(count, 1);
            if let Some(c) = children_of(b) {
                assert!(!c.is_empty());
                check(c);
            }
        }
    }
    check(&blocks);
}

#[test]
fn unclosed_paragraph_gathers_the_rest() {
    let events = vec![MdEvent::Start(MdTag::Paragraph), text("a"), text("b")];
    let blocks = parse_events(&events);
    assert_eq!(blocks.len(), 1);
    assert_eq!(runs_of(&blocks[0]).len(), 2);
}

#[test]
fn inline_text_before_a_block_becomes_a_paragraph() {
    let events = vec![
        text("lead"),
        MdEvent::Start(MdTag::Heading(1)),
        text("h"),
        MdEvent::End(MdTag::Heading(1)),
        text("tail"),
    ];
    let blocks = parse_events(&events);
    assert_eq!(blocks.len(), 3);
    assert!(matches!(blocks[0].block_type, BlockType::Paragraph));
    assert!(matches!(blocks[1].block_type, BlockType::Heading1));
    assert!(matches!(blocks[2].block_type, BlockType::Paragraph));
    assert_eq!(runs_of(&blocks[2])[0].plain_text.as_deref(), Some("tail"));
}

#[test]
fn collect_stops_at_the_matching_end() {
    let events = vec![
        MdEvent::Start(MdTag::List(None)),
        MdEvent::Start(MdTag::Item),
        MdEvent::Start(MdTag::List(None)),
        MdEvent::End(MdTag::List(None)),
        MdEvent::End(MdTag::Item),
        MdEvent::End(MdTag::List(None)),
        text("after"),
    ];
    let (inner, next) = collect_events_until(&events, 1, &MdTag::List(None));
    assert_eq!(inner.len(), 4);
    assert_eq!(next, 6);
    let (rest, end) = collect_events_until(&events, 6, &MdTag::Paragraph);
    assert_eq!(rest.len(), 1);
    assert_eq!(end, 7);
}

#[test]
fn block_tags() {
    assert!(is_block_tag(&MdTag::Paragraph));
    assert!(is_block_tag(&MdTag::Heading(3)));
    assert!(is_block_tag(&MdTag::List(Some(1))));
    assert!(is_block_tag(&MdTag::Item));
    assert!(is_block_tag(&MdTag::BlockQuote));
    assert!(is_block_tag(&MdTag::CodeBlock));
    assert!(!is_block_tag(&MdTag::Strong));
    assert!(!is_block_tag(&MdTag::Link("u".to_string())));
    assert!(!is_block_tag(&MdTag::Other));
    assert_eq!(tag_kind(&MdTag::Heading(1)), tag_kind(&MdTag::Heading(5)));
    assert_ne!(tag_kind(&MdTag::List(None)), tag_kind(&MdTag::Item));
}
