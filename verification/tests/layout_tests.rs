use grid_layout::layout::{cell_region, compute_layout, hit_test, CellRegion};

fn vp(x: u16, y: u16, width: u16, height: u16) -> CellRegion {
    CellRegion { x, y, width, height }
}

#[test]
fn few_items_get_one_column_each() {
    // With at most three items and a wide enough viewport, columns == max(n, 1).
    assert_eq!(compute_layout(100, 0).columns, 1);
    assert_eq!(compute_layout(100, 1).columns, 1);
    assert_eq!(compute_layout(100, 2).columns, 2);
    assert_eq!(compute_layout(100, 3).columns, 3);
}

#[test]
fn narrow_viewport_caps_columns() {
    // Only one 25-cell column fits in 30 cells.
    assert_eq!(compute_layout(30, 3).columns, 1);
    // Zero width must not panic and gives a single column.
    assert_eq!(compute_layout(0, 2).columns, 1);
    assert_eq!(compute_layout(0, 0).columns, 1);
    // Two 25-cell columns fit in 59 cells, not three.
    assert_eq!(compute_layout(59, 3).columns, 2);
}

#[test]
fn width_tiers_select_columns() {
    assert_eq!(compute_layout(79, 8).columns, 2);
    assert_eq!(compute_layout(80, 8).columns, 3);
    assert_eq!(compute_layout(119, 8).columns, 3);
    assert_eq!(compute_layout(120, 8).columns, 4);
}

#[test]
fn cell_and_text_widths_derive_from_share() {
    let r = compute_layout(100, 5);
    // 100 / 3 = 33; minus the border allowance and the padding allowance.
    assert_eq!(r.cell_width, 29);
    assert_eq!(r.text_width, 25);
    // Degenerate width floors at zero rather than underflowing.
    let tiny = compute_layout(3, 1);
    assert_eq!(tiny.cell_width, 0);
    assert_eq!(tiny.text_width, 0);
}

#[test]
fn end_to_end_width_100_five_items() {
    // width = 100, n = 5: n > 3 and 80 <= 100 < 120 so columns = 3, rows = 2.
    let r = compute_layout(100, 5);
    assert_eq!(r.columns, 3);
    assert_eq!(r.rows, 2);
    let area = vp(0, 0, 100, 30);
    // Item 0 sits at row 0, column 0; item 3 at row 1, column 0; item 4 at
    // row 1, column 1.
    let r0 = cell_region(&area, 5, 0);
    assert_eq!((r0.x, r0.y), (0, 0));
    let r3 = cell_region(&area, 5, 3);
    assert_eq!((r3.x, r3.y), (0, 10));
    let r4 = cell_region(&area, 5, 4);
    assert_eq!((r4.x, r4.y), (33, 10));
}

#[test]
fn end_to_end_width_200_ten_items() {
    // width = 200, n = 10: min(4, 200 / 25) = 4 columns, ceil(10 / 4) = 3 rows.
    let r = compute_layout(200, 10);
    assert_eq!(r.columns, 4);
    assert_eq!(r.rows, 3);
}

#[test]
fn row_count_is_ceiling() {
    assert_eq!(compute_layout(100, 0).rows, 0);
    assert_eq!(compute_layout(100, 1).rows, 1);
    assert_eq!(compute_layout(100, 6).rows, 2);
    assert_eq!(compute_layout(100, 7).rows, 3);
}

#[test]
fn regions_partition_each_row() {
    // Every point of a row band belongs to exactly one region: scanning a
    // horizontal line inside row 0 hits items 0, 1, 2 in order, no gaps.
    let area = vp(0, 0, 100, 30);
    let mut seen = Vec::new();
    for x in 0..100u16 {
        match hit_test(x, 5, &area, 5) {
            Some(i) => {
                if seen.last() != Some(&i) {
                    seen.push(i);
                }
            }
            None => panic!("gap at x = {}", x),
        }
    }
    assert_eq!(seen, vec![0, 1, 2]);
}

#[test]
fn hit_test_returns_the_containing_item() {
    // A coordinate strictly inside each region maps back to that item.
    let area = vp(2, 3, 100, 40);
    for i in 0..5usize {
        let r = cell_region(&area, 5, i);
        let cx = r.x + r.width / 2;
        let cy = r.y + r.height / 2;
        assert_eq!(hit_test(cx, cy, &area, 5), Some(i));
    }
}

#[test]
fn hit_test_misses_margins() {
    let area = vp(0, 3, 100, 40);
    // Below the last row band (two rows of height 10 starting at y = 3).
    assert_eq!(hit_test(50, 25, &area, 5), None);
    // Left of and right of the viewport.
    assert_eq!(hit_test(100, 5, &area, 5), None);
    // Above the viewport.
    assert_eq!(hit_test(50, 2, &area, 5), None);
    // In the final row, past the last assigned item (row 1 holds items 3, 4).
    assert_eq!(hit_test(80, 15, &area, 5), None);
    // No items at all: every point misses.
    assert_eq!(hit_test(10, 10, &area, 0), None);
}

#[test]
fn hit_test_rows_clamp_to_viewport() {
    // The viewport is only 15 cells tall, so row 1 is clipped to y in [13, 18).
    let area = vp(0, 3, 100, 15);
    assert_eq!(hit_test(5, 17, &area, 5), Some(3));
    assert_eq!(hit_test(5, 18, &area, 5), None);
}

#[test]
fn render_and_hit_test_agree() {
    // Both passes recompute the same grid from (width, n): the region the
    // renderer would draw for item i is exactly where hit_test finds i.
    let area = vp(0, 0, 137, 33);
    let n = 9;
    for i in 0..n {
        let r = cell_region(&area, n, i);
        for px in [r.x, r.x + r.width - 1] {
            for py in [r.y, r.y + r.height - 1] {
                assert_eq!(hit_test(px, py, &area, n), Some(i));
            }
        }
    }
}
