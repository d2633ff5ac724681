use gpui_base::document::{Document, Position};
use gpui_base::editor::{shortcut_for, EditorCore, Shortcut};

fn type_each(editor: &mut EditorCore, text: &str) {
    for ch in text.chars() {
        assert!(editor.insert(&ch.to_string()));
    }
}

#[test]
fn keyboard_edits_the_rendered_document() {
    let mut editor = EditorCore::new("hello").unwrap();
    let end = editor.document().last();
    editor.place(end, false);
    assert!(editor.enter());
    type_each(&mut editor, "world");
    assert_eq!(editor.document().paragraphs().len(), 2);
    assert_eq!(editor.document().text(editor.cursor().block), "world");
}

#[test]
fn collapsed_format_can_disable_inherited_bold() {
    let mut editor = EditorCore::new("**hello**").unwrap();
    let end = editor.document().last();
    editor.place(end, false);
    assert!(!editor.toggle_format(true));
    editor.insert(" plain");
    assert!(!editor.document().mark_at(editor.cursor()).bold);
    assert!(editor.source().contains("**hello**"));
    editor.toggle_format(true);
    editor.insert(" bold");
    assert!(editor.document().mark_at(editor.cursor()).bold);
}

#[test]
fn list_shortcuts_and_ordered_continuation() {
    let mut editor = EditorCore::new("").unwrap();
    type_each(&mut editor, "1. a");
    editor.enter();
    type_each(&mut editor, "b");
    editor.indent_list();
    assert!(editor.source().contains("1. a\n   1. b"));
    editor.outdent_list();
    assert!(editor.source().contains("1. a\n2. b"));
    editor.set_readonly(true);
    assert!(!editor.indent_list());
    assert!(editor.source().contains("1. a\n2. b"));
}

#[test]
fn empty_list_backspace_keeps_the_current_paragraph() {
    for source in ["previous\n\n- ", "previous\n\n1. "] {
        let mut editor = EditorCore::new(source).unwrap();
        let end = editor.document().last();
        editor.place(end, false);
        let cursor = editor.cursor();
        let count = editor.document().paragraphs().len();
        let before = editor.source();
        editor.delete(false);
        assert_eq!(editor.cursor(), cursor);
        assert_eq!(editor.document().paragraphs().len(), count);
        assert_eq!(editor.document().text(cursor.block), "");
        assert_ne!(editor.source(), before);
    }
}

#[test]
fn empty_nested_list_backspace_outdents_without_joining() {
    let mut editor = EditorCore::new("- parent").unwrap();
    let end = editor.document().last();
    editor.place(end, false);
    editor.enter();
    editor.indent_list();
    let cursor = editor.cursor();
    let nested = editor.source();
    editor.delete(false);
    assert_eq!(editor.cursor(), cursor);
    assert_eq!(editor.document().paragraphs().len(), 2);
    assert_eq!(editor.document().text(cursor.block), "");
    assert_ne!(editor.source(), nested);
    editor.delete(false);
    assert_eq!(editor.cursor(), cursor);
    assert_eq!(editor.document().paragraphs().len(), 2);
    let mut document = editor.document().clone();
    assert!(!document.outdent_list(cursor.block));
}

#[test]
fn task_prefixes_export_standard_markdown_and_continue_unchecked() {
    for (prefix, checked) in [
        ("-[]", false),
        ("-[ ]", false),
        ("-[x]", true),
        ("-[X]", true),
        ("- [ ]", false),
        ("- [x]", true),
    ] {
        let mut editor = EditorCore::new("").unwrap();
        type_each(&mut editor, prefix);
        editor.insert(" ");
        let id = editor.cursor().block;
        assert_eq!(editor.document().text(id), "");
        editor.insert("任务");
        let expected = if checked { "- [x] 任务" } else { "- [ ] 任务" };
        assert_eq!(editor.source().trim(), expected);
        assert_eq!(Document::parse(&editor.source()).unwrap().source(), editor.source());
        editor.enter();
        editor.insert("下一项");
        assert_eq!(editor.source().trim(), format!("{expected}\n- [ ] 下一项"));
    }
}

#[test]
fn task_conversion_and_plain_brackets_stay_text() {
    let mut editor = EditorCore::new("").unwrap();
    editor.insert("-[x]");
    editor.insert(" ");
    assert_eq!(editor.source().trim(), "- [x]");
    editor.delete(false);
    assert_eq!(editor.source().trim(), "");
    editor.insert("[x]");
    editor.insert(" ");
    assert_eq!(editor.document().text(editor.cursor().block), "[x] ");
}

#[test]
fn task_prefix_typed_key_by_key() {
    let mut editor = EditorCore::new("").unwrap();
    type_each(&mut editor, "- [x] a");
    editor.enter();
    type_each(&mut editor, "b");
    assert_eq!(editor.source().trim(), "- [x] a\n- [ ] b");
}

#[test]
fn pasted_lines_split_paragraphs_and_readonly_refuses_edits() {
    let mut editor = EditorCore::new("ab").unwrap();
    let start = editor.document().first();
    editor.place(start, false);
    editor.horizontal(true, false);
    assert!(editor.insert("x\r\ny\rz\nw"));
    assert_eq!(editor.document().paragraphs().len(), 4);
    assert_eq!(editor.source(), "ax\n\ny\n\nz\n\nwb");
    editor.set_readonly(true);
    assert!(editor.is_readonly());
    assert!(!editor.insert("q"));
    assert!(!editor.delete(true));
    assert!(!editor.enter());
    assert_eq!(editor.source(), "ax\n\ny\n\nz\n\nwb");
}

#[test]
fn headings_lists_and_moves_from_the_keyboard() {
    let mut editor = EditorCore::new("one\n\ntwo").unwrap();
    assert!(editor.set_heading(2));
    assert_eq!(editor.source(), "## one\n\ntwo");
    assert!(editor.move_block(true));
    assert_eq!(editor.source(), "two\n\n## one");
    assert!(editor.set_heading(0));
    assert!(editor.toggle_list());
    assert_eq!(editor.source(), "two\n\n- one");
    assert!(editor.toggle_list());
    assert_eq!(editor.source(), "two\n\none");
    let mut hashes = EditorCore::new("").unwrap();
    type_each(&mut hashes, "## title");
    assert_eq!(hashes.source(), "## title");
}

#[test]
fn shortcuts_are_read_from_the_whole_paragraph() {
    assert_eq!(shortcut_for("- "), Shortcut::List(false));
    assert_eq!(shortcut_for("* "), Shortcut::List(false));
    assert_eq!(shortcut_for("1. "), Shortcut::List(true));
    assert_eq!(shortcut_for("### "), Shortcut::Heading(3));
    assert_eq!(shortcut_for("#### "), Shortcut::Plain);
    assert_eq!(shortcut_for("[ ] "), Shortcut::Task { checked: false, require_list: true });
    assert_eq!(shortcut_for("- [X] "), Shortcut::Task { checked: true, require_list: false });
    assert_eq!(shortcut_for("x- "), Shortcut::Plain);
}

#[test]
fn bold_italic_and_block_moves_by_name() {
    let mut editor = EditorCore::new("hello\n\nworld").unwrap();
    let start = editor.document().first();
    let end = Position { block: start.block, offset: 5 };
    editor.place(start, false);
    editor.place(end, true);
    assert!(editor.toggle_bold());
    assert_eq!(editor.source(), "**hello**\n\nworld");
    assert!(editor.toggle_bold());
    assert_eq!(editor.source(), "hello\n\nworld");
    assert!(editor.toggle_italic());
    assert_eq!(editor.source(), "*hello*\n\nworld");
    assert!(editor.move_block_down());
    assert_eq!(editor.source(), "world\n\n*hello*");
    assert!(editor.move_block_up());
    assert_eq!(editor.source(), "*hello*\n\nworld");
    editor.place(start, false);
    assert!(!editor.toggle_italic());
    assert_eq!(editor.source(), "*hello*\n\nworld");
    editor.set_readonly(true);
    assert!(!editor.move_block_down());
    assert_eq!(editor.source(), "*hello*\n\nworld");
}

#[test]
fn set_source_reads_the_new_markdown() {
    let mut editor = EditorCore::new("old text").unwrap();
    assert!(editor.set_source("# Title\n\n- item").is_ok());
    assert_eq!(editor.source(), "# Title\n\n- item");
    assert_eq!(editor.document().paragraphs().len(), 2);
    assert_eq!(editor.cursor(), Position { block: 1, offset: 0 });
    let fresh = EditorCore::new("# Title\n\n- item").unwrap();
    assert_eq!(fresh.source(), editor.source());
}

#[test]
fn dragging_a_word_selection_keeps_the_word() {
    let mut editor = EditorCore::new("hello world").unwrap();
    let block = editor.document().first().block;
    let start = Position { block, offset: 6 };
    let end = Position { block, offset: 11 };
    editor.drag_select(start, end, Position { block, offset: 2 });
    assert_eq!((editor.anchor(), editor.cursor()), (end, Position { block, offset: 2 }));
    editor.drag_select(start, end, Position { block, offset: 8 });
    assert_eq!((editor.anchor(), editor.cursor()), (start, end));
    editor.drag_select(start, end, end);
    assert_eq!((editor.anchor(), editor.cursor()), (start, end));
    assert_eq!(editor.selected_text(), "world");
}
