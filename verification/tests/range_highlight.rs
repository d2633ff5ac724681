use gpui_base::range_highlight::{clip_backgrounds, moved_start, unchanged_ends, LeafSpan, RenderedIndex};

#[test]
fn ranges_split_into_leaf_pieces_around_objects() {
    let index = RenderedIndex {
        text: "ab\ncdef\n".to_string(),
        leaves: vec![
            LeafSpan { range: 0..2, key: 1u32, objects: vec![] },
            LeafSpan { range: 3..7, key: 2u32, objects: vec![1..2] },
        ],
    };
    assert_eq!(index.resolve(&(1..6)), Some(vec![(1, 1..2), (2, 0..1), (2, 2..3)]));
    assert_eq!(index.resolve(&(2..3)), Some(vec![]));
    assert_eq!(index.resolve(&(7..8)), Some(vec![]));
    assert_eq!(index.resolve(&(2..1)), None);
    assert_eq!(index.resolve(&(0..20)), None);
}

#[test]
fn ranges_off_character_boundaries_are_refused() {
    let index = RenderedIndex {
        text: "é".to_string(),
        leaves: vec![LeafSpan { range: 0..2, key: 0u8, objects: vec![] }],
    };
    assert_eq!(index.resolve(&(1..2)), None);
    assert_eq!(index.resolve(&(0..2)), Some(vec![(0, 0..2)]));
}

#[test]
fn edits_keep_the_unchanged_start_and_end() {
    let old = b"hello world".to_vec();
    let new = b"hello brave world".to_vec();
    assert_eq!(unchanged_ends(&old, &new, false), (5, 6));
    assert_eq!(unchanged_ends(&b"abc".to_vec(), &b"abcdef".to_vec(), false), (3, 0));
    assert_eq!(unchanged_ends(&b"abc".to_vec(), &b"xyz".to_vec(), true), (3, 0));
    assert_eq!(unchanged_ends(&b"axc".to_vec(), &b"ayc".to_vec(), false), (1, 1));
    assert_eq!(unchanged_ends(&b"abc".to_vec(), &b"abc".to_vec(), false), (3, 0));
}

#[test]
fn blocks_keep_or_move_their_start() {
    assert_eq!(moved_start(2, 5, 6, 11, 17), Some(2));
    assert_eq!(moved_start(5, 5, 6, 11, 17), Some(11));
    assert_eq!(moved_start(1, 1, 1, 3, 3), None);
    assert_eq!(moved_start(2, 1, 1, 3, 3), Some(2));
    assert_eq!(moved_start(9, 3, 2, 10, 4), Some(3));
}

#[test]
fn backgrounds_are_clipped_to_the_unchanged_text() {
    let backgrounds = vec![(0..3, 'a'), (2..8, 'b'), (5..6, 'c')];
    assert_eq!(clip_backgrounds(&backgrounds, 4), vec![(0..3, 'a'), (2..4, 'b')]);
    assert_eq!(clip_backgrounds(&backgrounds, 0), vec![]);
}
