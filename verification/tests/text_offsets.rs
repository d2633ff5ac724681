use gpui_base::grapheme::{next_boundary, previous_boundary};
use gpui_base::utf16::{byte_offset, utf16_offset};

#[test]
fn utf16_and_byte_offsets_convert_both_ways() {
    assert_eq!(byte_offset("你🙂a", 3), 7);
    assert_eq!(utf16_offset("你🙂a", 7), 3);
    assert_eq!(byte_offset("你🙂a", 2), 3);
    assert_eq!(byte_offset("abc", 10), 3);
    assert_eq!(utf16_offset("abc", 10), 3);
    assert_eq!(utf16_offset("", 0), 0);
    assert_eq!(byte_offset("", 4), 0);
}

#[test]
fn grapheme_boundaries_step_over_whole_clusters() {
    let text = "e\u{301}x🙂";
    assert_eq!(next_boundary(text, 0), 3);
    assert_eq!(previous_boundary(text, 3), 0);
    assert_eq!(next_boundary(text, 3), 4);
    assert_eq!(next_boundary(text, 4), 8);
    assert_eq!(previous_boundary(text, 8), 4);
    assert_eq!(previous_boundary(text, 0), 0);
}
