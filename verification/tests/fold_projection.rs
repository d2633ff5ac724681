use gpui_base::fold_map::{FoldMap, FoldRange};
use std::ops::Range;

/// The per-row tables of the projection: display row to wrap row, and wrap
/// row to display row.
fn dense_projection(wrap_row_count: usize, hidden: &[Range<usize>]) -> (Vec<usize>, Vec<Option<usize>>) {
    let mut visible = Vec::new();
    let mut display_rows = vec![None; wrap_row_count];
    for (wrap_row, display_row) in display_rows.iter_mut().enumerate() {
        if !hidden.iter().any(|range| range.contains(&wrap_row)) {
            *display_row = Some(visible.len());
            visible.push(wrap_row);
        }
    }
    (visible, display_rows)
}

#[test]
fn hidden_runs_match_the_dense_projection() {
    let wrap_row_count = 10;
    let cases: &[&[Range<usize>]] = &[
        &[],
        &[0..3],
        &[2..5],
        &[7..10],
        &[2..4, 4..6],
        &[1..5, 3..8],
        &[6..9, 1..3],
        &[0..2, 3..4, 8..20],
        &[0..10],
    ];
    for &hidden in cases {
        let mut fold_map = FoldMap::new();
        fold_map.set_candidates(vec![FoldRange::new(0, 1)]);
        fold_map.set_folded(0, true);
        fold_map.set_hidden_rows(wrap_row_count, hidden.to_vec());
        let (visible, display_rows) = dense_projection(wrap_row_count, hidden);

        assert_eq!(fold_map.display_row_count(), visible.len(), "{hidden:?}");
        for wrap_row in 0..wrap_row_count + 2 {
            let display_row = display_rows.get(wrap_row).copied().flatten();
            assert_eq!(
                fold_map.wrap_row_to_display_row(wrap_row),
                display_row,
                "{hidden:?}, wrap row {wrap_row}"
            );
            let nearest = match visible.binary_search(&wrap_row) {
                Ok(index) => index,
                Err(index) => index.saturating_sub(1),
            };
            assert_eq!(
                fold_map.nearest_visible_display_row(wrap_row),
                nearest,
                "{hidden:?}, wrap row {wrap_row}"
            );
        }
        for display_row in 0..wrap_row_count + 2 {
            assert_eq!(
                fold_map.display_row_to_wrap_row(display_row),
                visible.get(display_row).copied(),
                "{hidden:?}, display row {display_row}"
            );
        }
    }
}

#[test]
fn merging_away_a_candidate_drops_its_fold() {
    let mut fold_map = FoldMap::new();
    fold_map.set_candidates(vec![FoldRange::new(3, 5), FoldRange::new(8, 9)]);
    fold_map.set_folded(3, true);
    fold_map.set_folded(8, true);
    fold_map.merge_candidates_for_edit(3, 3, vec![]);
    assert_eq!(fold_map.fold_candidates(), &[FoldRange::new(8, 9)]);
    assert_eq!(fold_map.folded_ranges(), &[FoldRange::new(8, 9)]);
    fold_map.merge_candidates_for_edit(2, 4, vec![FoldRange::new(4, 6)]);
    assert_eq!(fold_map.fold_candidates(), &[FoldRange::new(4, 6), FoldRange::new(8, 9)]);
    assert_eq!(fold_map.folded_ranges(), &[FoldRange::new(8, 9)]);
}

#[test]
fn merged_candidates_keep_those_outside_the_edit() {
    let mut fold_map = FoldMap::new();
    fold_map.set_candidates(vec![FoldRange::new(0, 5), FoldRange::new(10, 12), FoldRange::new(20, 25)]);
    fold_map.set_folded(20, true);
    fold_map.merge_candidates_for_edit(
        8,
        15,
        vec![FoldRange::new(30, 31), FoldRange::new(20, 21), FoldRange::new(10, 14)],
    );
    assert_eq!(
        fold_map.fold_candidates(),
        &[FoldRange::new(0, 5), FoldRange::new(10, 14), FoldRange::new(20, 25), FoldRange::new(30, 31)]
    );
    assert_eq!(fold_map.folded_ranges(), &[FoldRange::new(20, 25)]);
}
