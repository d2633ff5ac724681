use gpui_base::document::{BlockNode, Document, Position};

#[test]
fn list_enter_creates_a_sibling_item() {
    let mut doc = Document::parse("- One\n- Two").unwrap();
    doc.split(Position {
        offset: 1,
        ..doc.first()
    });
    let source = doc.source();
    assert!(source.contains("- O"));
    assert!(source.contains("- ne"));
    assert!(source.contains("- Two"));
}

#[test]
fn unsupported_blocks_survive_text_edits() {
    let mut doc = Document::parse("Hello\n\n```rust\nlet x = 1;\n```\n\n![alt](https://example.com/a.png)\n\n| A | B |\n| - | - |\n| 1 | 2 |").unwrap();
    doc.replace(doc.first(), doc.first(), "X", None);
    let source = doc.source();
    assert!(source.contains("let x = 1;"));
    assert!(source.contains("https://example.com/a.png"));
    assert!(source.contains("| A | B |"));
}

#[test]
fn snapshots_do_not_share_mutable_document_content() {
    let mut doc = Document::parse("**before**").unwrap();
    let before = doc.clone();
    doc.replace(doc.first(), doc.last(), "after", None);
    assert_eq!(before.text(before.first().block), "before");
    assert_eq!(doc.text(doc.first().block), "after");
}

#[test]
fn toggling_format_off_preserves_text_and_other_marks() {
    let mut doc = Document::parse("**hello** *world*").unwrap();
    doc.format(
        doc.first(),
        Position {
            offset: 5,
            ..doc.first()
        },
        true,
    );
    assert!(!doc.source().contains("**hello**"));
    assert!(doc.source().contains("*world*"));
    assert_eq!(doc.text(doc.first().block), "hello world");
}

#[test]
fn list_indent_outdent_preserves_order_and_markdown_nesting() {
    for source in ["- one\n- two\n- three", "1. one\n2. two\n3. three"] {
        let mut doc = Document::parse(source).unwrap();
        let ids = doc
            .paragraphs()
            .iter()
            .map(|p| p.editor_id())
            .collect::<Vec<_>>();
        assert!(!doc.indent_list(ids[0]));
        assert!(doc.indent_list(ids[1]));
        assert!(doc.indent_list(ids[2]));
        let nested = doc.source();
        assert!(nested.contains("\n  - two") || nested.contains("\n   1. two"));
        let parsed = Document::parse(&nested).unwrap();
        assert_eq!(parsed.source(), nested);
        assert!(doc.outdent_list(ids[1]));
        assert_eq!(
            doc.paragraphs()
                .iter()
                .map(|p| p.editor_id())
                .collect::<Vec<_>>(),
            ids
        );
        // Following nested siblings become children of the promoted item.
        assert!(doc.outdent_list(ids[2]));
        assert_eq!(doc.source(), Document::parse(source).unwrap().source());
    }
}

#[test]
fn enter_on_a_parent_list_item_keeps_its_children() {
    let mut doc = Document::parse("- parent\n  - child\n- sibling").unwrap();
    let at = Position {
        offset: 3,
        ..doc.first()
    };
    doc.split(at);
    let source = doc.source();
    assert!(source.contains("- par\n- ent\n  - child\n- sibling"));
    assert_eq!(Document::parse(&source).unwrap().source(), source);
}

#[test]
fn edit_ranges_keep_marks_and_unicode_boundaries() {
    let mut doc = Document::parse("**你好** world").unwrap();
    let at = Position {
        offset: "你好".len(),
        ..doc.first()
    };
    let cursor = doc.replace(at, at, "🙂", None);
    assert_eq!(doc.text(at.block), "你好🙂 world");
    assert_eq!(doc.adjacent(cursor, false), at);
    assert!(doc.source().contains("**"));
}

#[test]
fn cross_block_replace_and_split_keep_the_first_identity() {
    let mut doc = Document::parse("# One\n\nTwo\n\nThree").unwrap();
    let first = doc.first();
    let last = Position {
        offset: 2,
        ..doc.last()
    };
    let cursor = doc.replace(Position { offset: 1, ..first }, last, "!", None);
    assert_eq!(doc.text(first.block), "O!ree");
    assert_eq!(doc.paragraphs().len(), 1);
    let next = doc.split(cursor);
    assert_ne!(next.block, first.block);
    assert_eq!(doc.text(next.block), "ree");
    assert!(doc.source().starts_with("# O!"));
}

#[test]
fn caret_steps_forward_and_back_return_home() {
    let doc = Document::parse("a👍🏽b\n\ncd").unwrap();
    let first = doc.first();
    let last = doc.last();
    let mut at = first;
    let mut places = vec![at];
    while at != last {
        at = doc.adjacent(at, true);
        places.push(at);
    }
    assert_eq!(places.len(), 7);
    assert_eq!(places[1].offset, 1);
    assert_eq!(places[2].offset, 9);
    for (i, &place) in places.iter().enumerate() {
        if i + 1 < places.len() {
            assert_eq!(doc.adjacent(doc.adjacent(place, true), false), place);
        }
        if i > 0 {
            assert_eq!(doc.adjacent(doc.adjacent(place, false), true), place);
        }
    }
    assert_eq!(doc.adjacent(last, true), last);
    assert_eq!(doc.adjacent(first, false), first);
}

fn para_text(node: &BlockNode) -> String {
    match node {
        BlockNode::Paragraph(p) => p.text(),
        _ => panic!("expected a paragraph"),
    }
}

#[test]
fn markdown_reads_into_nested_blocks() {
    let source = "# Title\n\n- [x] done\n- todo\n  more\n\n> quoted *it*\n\n```\ncode\n```\n\n| a |\n\ntext **bold**\nnext";
    let doc = Document::parse(source).unwrap();
    let blocks = doc.block_nodes();
    assert_eq!(blocks.len(), 6);
    match &blocks[0] {
        BlockNode::Heading { level, children } => {
            assert_eq!(*level, 1);
            assert_eq!(children.text(), "Title");
            assert_eq!(children.id, 1);
        },
        _ => panic!("expected a heading"),
    }
    match &blocks[1] {
        BlockNode::List { children, ordered } => {
            assert!(!*ordered);
            assert_eq!(children.len(), 2);
            match &children[0] {
                BlockNode::ListItem { children, checked, .. } => {
                    assert_eq!(*checked, Some(true));
                    assert_eq!(children.len(), 1);
                    assert_eq!(para_text(&children[0]), "done");
                },
                _ => panic!("expected an item"),
            }
            match &children[1] {
                BlockNode::ListItem { children, checked, .. } => {
                    assert_eq!(*checked, None);
                    assert_eq!(para_text(&children[0]), "todo\nmore");
                },
                _ => panic!("expected an item"),
            }
        },
        _ => panic!("expected a list"),
    }
    match &blocks[2] {
        BlockNode::Blockquote { children } => {
            assert_eq!(children.len(), 1);
            match &children[0] {
                BlockNode::Paragraph(p) => {
                    assert_eq!(p.text(), "quoted it");
                    assert_eq!(p.id, 4);
                    assert!(!p.marks[0].italic);
                    assert!(p.marks[7].italic && p.marks[8].italic);
                },
                _ => panic!("expected a paragraph"),
            }
        },
        _ => panic!("expected a quotation"),
    }
    match &blocks[3] {
        BlockNode::Unsupported { source } => assert_eq!(source, "```\ncode\n```"),
        _ => panic!("expected a code fence"),
    }
    match &blocks[4] {
        BlockNode::Unsupported { source } => assert_eq!(source, "| a |"),
        _ => panic!("expected a table"),
    }
    match &blocks[5] {
        BlockNode::Paragraph(p) => {
            assert_eq!(p.text(), "text bold\nnext");
            assert_eq!(p.id, 5);
            assert!(!p.marks[4].bold);
            assert!(p.marks[5].bold && p.marks[8].bold);
            assert!(!p.marks[9].bold);
        },
        _ => panic!("expected a paragraph"),
    }
    assert_eq!(doc.paragraphs().len(), 5);
}

#[test]
fn empty_markdown_reads_as_one_empty_paragraph() {
    for source in ["", "\n\n", "```\ncode\n```"] {
        let doc = Document::parse(source).unwrap();
        let paragraphs = doc.paragraphs();
        assert_eq!(paragraphs.len(), 1);
        assert_eq!(paragraphs[0].text(), "");
        assert_eq!(paragraphs[0].id, 1);
    }
}

#[test]
fn outdenting_a_top_level_item_unlists_it() {
    for source in ["- a\n- b", "1. a\n2. b\n   - c", "- [x] a\n- b"] {
        let mut outdented = Document::parse(source).unwrap();
        let mut unlisted = Document::parse(source).unwrap();
        let id = outdented.first().block;
        assert!(outdented.outdent_list(id));
        assert!(unlisted.unlist(id));
        assert_eq!(outdented.source(), unlisted.source());
    }
}

#[test]
fn plain_paragraphs_read_back_as_written() {
    let doc = Document::parse("alpha\n\nbeta gamma\n\ndelta 42.").unwrap();
    let written = doc.source();
    assert_eq!(written, "alpha\n\nbeta gamma\n\ndelta 42.");
    let again = Document::parse(&written).unwrap();
    let texts: Vec<String> = again.paragraphs().iter().map(|p| p.text()).collect();
    assert_eq!(texts, vec!["alpha", "beta gamma", "delta 42."]);
    assert_eq!(again.source(), written);
}

#[test]
fn plain_headings_and_paragraphs_read_back_as_written() {
    let doc = Document::parse("## Notes\n\nfirst line\n\n###### small print").unwrap();
    let written = doc.source();
    assert_eq!(written, "## Notes\n\nfirst line\n\n###### small print");
    let again = Document::parse(&written).unwrap();
    match &again.block_nodes()[0] {
        BlockNode::Heading { level, children } => {
            assert_eq!(*level, 2);
            assert_eq!(children.text(), "Notes");
        },
        _ => panic!("expected a heading"),
    }
    assert_eq!(again.source(), written);
}

#[test]
fn one_line_images_and_tables_read_back_as_written() {
    let source = "# Gallery\n\n![logo](a.png)\n\n| a | b |\n\ncaption";
    let doc = Document::parse(source).unwrap();
    assert_eq!(doc.source(), source);
    match &doc.block_nodes()[1] {
        BlockNode::Unsupported { source } => assert_eq!(source, "![logo](a.png)"),
        _ => panic!("expected an image"),
    }
    assert_eq!(Document::parse(&doc.source()).unwrap().source(), source);
}

#[test]
fn identity_zero_names_no_paragraph() {
    let mut d = Document::parse("# One\n\nTwo\n\nThree").unwrap();
    let ids: Vec<u64> = d.paragraphs().iter().map(|p| p.editor_id()).collect();
    assert!(!ids.contains(&0));
    let a = Position { offset: 1, ..d.first() };
    let b = Position { offset: 2, ..d.last() };
    assert_eq!(d.selection_in(ids[0], a, b), Some(1..3));
    assert_eq!(d.selection_in(ids[1], b, a), Some(0..3));
    assert_eq!(d.selection_in(ids[2], a, b), Some(0..2));
    assert_eq!(d.selection_in(ids[0], Position { block: ids[1], offset: 0 }, Position { block: ids[2], offset: 1 }), None);
    assert_eq!(d.selection_in(0, a, b), None);
    assert_eq!(d.text(ids[1]), "Two");
    assert_eq!(d.text(0), "");
    d.replace(a, b, "!", None);
    assert_eq!(d.text(ids[0]), "O!ree");
    assert_eq!(d.text(ids[1]), "");
    assert_eq!(d.text(ids[2]), "");
}

#[test]
fn bullet_and_task_lists_read_back_as_written() {
    let source = "- [x] done\n- [ ] open\n- plain item";
    let doc = Document::parse(source).unwrap();
    assert_eq!(doc.source(), source);
    assert_eq!(Document::parse(&doc.source()).unwrap().source(), source);
}

#[test]
fn mixed_documents_with_lists_read_back_as_written() {
    let source = "# Plan\n\n- [x] done\n- [ ] open\n\nBetween the lists.\n\n- first\n- second\n\n| a | b |";
    let doc = Document::parse(source).unwrap();
    assert_eq!(doc.source(), source);
    let again = Document::parse(&doc.source()).unwrap();
    assert_eq!(again.source(), source);
    assert_eq!(again.paragraphs().len(), doc.paragraphs().len());
}

#[test]
fn nested_task_lists_read_back_as_written() {
    let source = "# Nested\n\n- [x] parent\n  - child\n    - [ ] grandchild\n  - second child\n- sibling\n\nAfter the list.";
    let doc = Document::parse(source).unwrap();
    assert_eq!(doc.source(), source);
    let again = Document::parse(&doc.source()).unwrap();
    assert_eq!(again.source(), source);
    assert_eq!(again.paragraphs().len(), 7);
}

#[test]
fn ordered_and_nested_lists_read_back_as_written() {
    let source = "1. one\n2. two\n   - [x] inside\n   - plain\n3. three\n\n- after\n  1. nested first\n  2. nested second";
    let doc = Document::parse(source).unwrap();
    assert_eq!(doc.source(), source);
    let again = Document::parse(&doc.source()).unwrap();
    assert_eq!(again.source(), source);
    assert_eq!(again.paragraphs().len(), 8);
}
