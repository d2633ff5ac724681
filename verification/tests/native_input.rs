use gpui_base::editor::EditorCore;

fn caret_text(editor: &EditorCore) -> String {
    editor.document().text(editor.cursor().block)
}

#[test]
fn ime_commit_keeps_native_offsets_in_utf16() {
    let mut editor = EditorCore::new("a🙂b").unwrap();
    // UTF-16 units 1..3 are the emoji.
    assert!(editor.replace_and_mark_text_in_range(Some((1, 3)), "你", Some((1, 1))));
    assert_eq!(caret_text(&editor), "a你b");
    assert_eq!(editor.marked_text_range(), Some((1, 2)));
    assert!(editor.replace_and_mark_text_in_range(None, "你好", Some((2, 2))));
    assert_eq!(caret_text(&editor), "a你好b");
    assert_eq!(editor.marked_text_range(), Some((1, 3)));
    assert!(editor.replace_text_in_range(None, "你好"));
    assert_eq!(caret_text(&editor), "a你好b");
    assert_eq!(editor.marked_text_range(), None);
    assert_eq!(editor.selected_text_range(), (3, 3, false));
}

#[test]
fn marked_selection_sits_inside_the_composed_text() {
    let mut editor = EditorCore::new("xy").unwrap();
    let end = editor.document().last();
    editor.place(end, false);
    assert!(editor.replace_and_mark_text_in_range(None, "abc", Some((1, 2))));
    assert_eq!(caret_text(&editor), "xyabc");
    assert_eq!(editor.anchor().offset, 3);
    assert_eq!(editor.cursor().offset, 4);
    assert_eq!(editor.selected_text_range(), (3, 4, false));
    assert_eq!(editor.marked_text_range(), Some((2, 5)));
}

#[test]
fn readonly_rejects_native_input() {
    let mut editor = EditorCore::new("hello").unwrap();
    let source = editor.source();
    editor.set_readonly(true);
    assert!(!editor.replace_text_in_range(None, "changed"));
    assert!(!editor.replace_and_mark_text_in_range(None, "你", None));
    assert!(!editor.set_heading(2));
    assert_eq!(editor.source(), source);
}

#[test]
fn readonly_transition_settles_composition_once() {
    let mut editor = EditorCore::new("").unwrap();
    assert!(editor.replace_and_mark_text_in_range(None, "你好", None));
    assert!(editor.marked_text_range().is_some());
    editor.set_readonly(true);
    assert_eq!(editor.marked_text_range(), None);
    assert_eq!(caret_text(&editor), "你好");
    editor.set_readonly(true);
    assert_eq!(caret_text(&editor), "你好");
}

#[test]
fn committing_without_composition_types_the_text() {
    let mut editor = EditorCore::new("ab").unwrap();
    assert!(editor.replace_text_in_range(Some((1, 1)), "X\nY"));
    assert_eq!(editor.document().paragraphs().len(), 2);
    assert_eq!(caret_text(&editor), "Yb");
    assert_eq!(editor.document().text(editor.document().first().block), "aX");
}

#[test]
fn text_for_range_reports_utf16_offsets() {
    let editor = EditorCore::new("a🙂b").unwrap();
    // Offset 2 falls inside the emoji and moves to its start.
    let (text, start, end) = editor.text_for_range(2, 4);
    assert_eq!(text, "🙂b");
    assert_eq!((start, end), (1, 4));
}

#[test]
fn edits_settle_the_composition() {
    let mut editor = EditorCore::new("ab").unwrap();
    assert!(editor.replace_and_mark_text_in_range(None, "c", None));
    assert!(editor.marked_text_range().is_some());
    assert!(editor.insert("d"));
    assert_eq!(editor.marked_text_range(), None);
    assert_eq!(caret_text(&editor), "cdab");
}
