use boxlayout::{BaseItem, LayVec4, LAY_ROW, LAY_COLUMN, LAY_WRAP, LAY_START, LAY_MIDDLE,
    LAY_END, LAY_JUSTIFY, LAY_HFILL, LAY_VFILL, LAY_FILL, LAY_BREAK, LAY_RIGHT, LAY_BOTTOM};

fn rect(item: &BaseItem<'_>) -> LayVec4 {
    item.position()
}

#[test]
fn single_node_explicit_size() {
    let mut top = BaseItem::new("top", 0, 0, [40, 30]);
    top.run();
    assert_eq!(rect(&top), [0, 0, 40, 30]);
}

#[test]
fn empty_container_derives_zero() {
    let mut top = BaseItem::new("top", LAY_ROW, 0, [0, 0]);
    top.run();
    assert_eq!(rect(&top), [0, 0, 0, 0]);
}

#[test]
fn insert_and_child_access() {
    let mut top = BaseItem::new("top", LAY_ROW, 0, [100, 10]);
    let n = top.insert(BaseItem::new("a", 0, 0, [10, 10]));
    assert_eq!(n, 1);
    let n = top.insert(BaseItem::new("c", 0, 0, [30, 10]));
    assert_eq!(n, 2);
    top.append(BaseItem::new("b", 0, 0, [20, 10]), 1);
    assert_eq!(top.num_children(), 3);
    assert_eq!(top.child(1).name, "b");
}

#[test]
fn row_stacks_children_in_order() {
    // Start-aligned unwrapped row: each child sits exactly behind the
    // children before it and keeps its explicit width.
    let mut top = BaseItem::new("top", LAY_ROW | LAY_START, 0, [100, 20]);
    top.insert(BaseItem::new("a", 0, 0, [10, 20]));
    top.insert(BaseItem::new("b", 0, 0, [20, 20]));
    top.insert(BaseItem::new("c", 0, 0, [30, 20]));
    top.run();
    assert_eq!(rect(top.child(0)), [0, 0, 10, 20]);
    assert_eq!(rect(top.child(1)), [10, 0, 20, 20]);
    assert_eq!(rect(top.child(2)), [30, 0, 30, 20]);
}

#[test]
fn column_stacks_vertically() {
    let mut top = BaseItem::new("top", LAY_COLUMN | LAY_START, 0, [20, 100]);
    top.insert(BaseItem::new("a", 0, 0, [20, 40]));
    top.insert(BaseItem::new("b", 0, 0, [20, 25]));
    top.run();
    assert_eq!(rect(top.child(0)), [0, 0, 20, 40]);
    assert_eq!(rect(top.child(1)), [0, 40, 20, 25]);
}

#[test]
fn fill_child_takes_parent_extent_minus_margins() {
    // Vertical fill inside a row: the child's height is the parent's
    // height minus the child's own vertical margins.
    let mut top = BaseItem::new("top", LAY_ROW | LAY_START, 0, [100, 50]);
    let mut kid = BaseItem::new("kid", 0, LAY_VFILL, [20, 0]);
    kid.margins = [0, 3, 0, 2];
    top.insert(kid);
    top.run();
    assert_eq!(rect(top.child(0)), [0, 3, 20, 45]);
}

#[test]
fn hfill_child_stretches_full_width() {
    let mut top = BaseItem::new("top", LAY_COLUMN, 0, [640, 480]);
    top.insert(BaseItem::new("bar", LAY_ROW | LAY_START, LAY_HFILL, [0, 24]));
    top.run();
    assert_eq!(rect(top.child(0))[2], 640);
}

#[test]
fn justify_spreads_equal_gaps() {
    // Three 20-wide children in a 100-wide justify row: slack 40 makes
    // two inner gaps of 20 and no leading or trailing shift.
    let mut top = BaseItem::new("top", LAY_ROW | LAY_JUSTIFY, 0, [100, 10]);
    top.insert(BaseItem::new("a", 0, 0, [20, 10]));
    top.insert(BaseItem::new("b", 0, 0, [20, 10]));
    top.insert(BaseItem::new("c", 0, 0, [20, 10]));
    top.run();
    assert_eq!(rect(top.child(0)), [0, 0, 20, 10]);
    assert_eq!(rect(top.child(1)), [40, 0, 20, 10]);
    assert_eq!(rect(top.child(2)), [80, 0, 20, 10]);
}

#[test]
fn end_justify_shoves_line_right() {
    let mut top = BaseItem::new("top", LAY_ROW | LAY_END, 0, [100, 10]);
    top.insert(BaseItem::new("a", 0, 0, [10, 10]));
    top.insert(BaseItem::new("b", 0, 0, [20, 10]));
    top.run();
    assert_eq!(rect(top.child(0)), [70, 0, 10, 10]);
    assert_eq!(rect(top.child(1)), [80, 0, 20, 10]);
}

#[test]
fn middle_justify_centers_line() {
    let mut top = BaseItem::new("top", LAY_ROW | LAY_MIDDLE, 0, [100, 10]);
    top.insert(BaseItem::new("a", 0, 0, [10, 10]));
    top.insert(BaseItem::new("b", 0, 0, [20, 10]));
    top.run();
    assert_eq!(rect(top.child(0)), [35, 0, 10, 10]);
    assert_eq!(rect(top.child(1)), [45, 0, 20, 10]);
}

#[test]
fn overlay_centers_by_default() {
    let mut top = BaseItem::new("top", 0, 0, [100, 40]);
    top.insert(BaseItem::new("a", 0, 0, [30, 40]));
    top.run();
    assert_eq!(rect(top.child(0)), [35, 0, 30, 40]);
}

#[test]
fn squeeze_shrinks_derived_children() {
    // Two shrinkable children of natural width 30 in a 50-wide row:
    // the deficit of 10 is eaten evenly, 5 from each.
    let mut top = BaseItem::new("top", LAY_ROW | LAY_START, 0, [50, 10]);
    let mut a = BaseItem::new("a", 0, 0, [0, 0]);
    a.insert(BaseItem::new("al", 0, 0, [30, 10]));
    let mut b = BaseItem::new("b", 0, 0, [0, 0]);
    b.insert(BaseItem::new("bl", 0, 0, [30, 10]));
    top.insert(a);
    top.insert(b);
    top.run();
    assert_eq!(rect(top.child(0))[0], 0);
    assert_eq!(rect(top.child(0))[2], 25);
    assert_eq!(rect(top.child(1))[0], 25);
    assert_eq!(rect(top.child(1))[2], 25);
}

#[test]
fn wrap_threshold_sets_break_flag() {
    // 20+20+20 in a 50-wide wrapping row: the third child is the first
    // to overflow, starts the second line, and gets the break flag.
    let mut top = BaseItem::new("top", LAY_ROW | LAY_WRAP, 0, [50, 0]);
    top.insert(BaseItem::new("a", 0, 0, [20, 10]));
    top.insert(BaseItem::new("b", 0, 0, [20, 10]));
    top.insert(BaseItem::new("c", 0, 0, [20, 10]));
    top.run();
    assert_eq!(top.child(0).behave_flags & LAY_BREAK, 0);
    assert_eq!(top.child(1).behave_flags & LAY_BREAK, 0);
    assert_eq!(top.child(2).behave_flags & LAY_BREAK, LAY_BREAK);
    // First line centered with slack 10, second with slack 30.
    assert_eq!(rect(top.child(0)), [5, 0, 20, 10]);
    assert_eq!(rect(top.child(1)), [25, 0, 20, 10]);
    assert_eq!(rect(top.child(2)), [15, 10, 20, 10]);
    // Cross extent: two lines of height 10 each.
    assert_eq!(rect(&top)[3], 20);
}

#[test]
fn wrapped_column_bands_and_resizes() {
    let mut top = BaseItem::new("top", LAY_COLUMN | LAY_WRAP, 0, [0, 50]);
    top.insert(BaseItem::new("a", 0, 0, [10, 20]));
    top.insert(BaseItem::new("b", 0, 0, [10, 20]));
    top.insert(BaseItem::new("c", 0, 0, [10, 20]));
    top.run();
    // The third child wraps into a second vertical band; the column's
    // own width grows to the two bands it produced.
    assert_eq!(rect(&top)[2], 20);
    assert_eq!(rect(top.child(0)), [0, 5, 10, 20]);
    assert_eq!(rect(top.child(1)), [0, 25, 10, 20]);
    assert_eq!(rect(top.child(2)), [10, 15, 10, 20]);
}

#[test]
fn run_twice_gives_identical_rects() {
    // No automatic break occurs in this tree, so a second run leaves
    // every rectangle unchanged.
    let mut top = BaseItem::new("top", LAY_COLUMN, 0, [640, 480]);
    let mut bar = BaseItem::new("bar", LAY_ROW | LAY_START, LAY_HFILL, [0, 0]);
    bar.insert(BaseItem::new("w", 0, 0, [32, 32]));
    top.insert(bar);
    top.insert(BaseItem::new("center", 0, LAY_FILL, [0, 0]));
    top.run();
    let r0 = rect(&top);
    let r00 = rect(top.child(0));
    let r01 = rect(top.child(0).child(0));
    let r1 = rect(top.child(1));
    top.run();
    assert_eq!(rect(&top), r0);
    assert_eq!(rect(top.child(0)), r00);
    assert_eq!(rect(top.child(0).child(0)), r01);
    assert_eq!(rect(top.child(1)), r1);
}

#[test]
fn full_screen_scenario() {
    // A top bar that wraps around a forced break, a stretching center,
    // and a bottom bar, inside a 640x480 column.
    let mut top = BaseItem::new("top", LAY_COLUMN, 0, [640, 480]);
    let mut topbar = BaseItem::new("topbar", LAY_ROW | LAY_MIDDLE | LAY_WRAP, LAY_HFILL,
        [0, 0]);
    topbar.insert(BaseItem::new("widget1", 0, 0, [32, 32]));
    topbar.insert(BaseItem::new("widget2", 0, LAY_BREAK, [32, 32]));
    topbar.insert(BaseItem::new("widget3", 0, 0, [64, 64]));
    let center = BaseItem::new("center", 0, LAY_FILL, [0, 0]);
    let bottombar = BaseItem::new("bottombar", LAY_ROW | LAY_START, LAY_HFILL, [0, 0]);
    top.insert(topbar);
    top.insert(center);
    top.insert(bottombar);
    top.run();

    assert_eq!(rect(&top), [0, 0, 640, 480]);
    // The bar holds two lines: 32 high and 64 high, so it is 96 high
    // and stretches to the full width.
    assert_eq!(rect(top.child(0)), [0, 0, 640, 96]);
    assert_eq!(rect(top.child(0).child(0)), [304, 0, 32, 32]);
    assert_eq!(rect(top.child(0).child(1)), [272, 48, 32, 32]);
    assert_eq!(rect(top.child(0).child(2)), [304, 32, 64, 64]);
    // The center takes the remaining 480 - 96 - 0 vertical space.
    assert_eq!(rect(top.child(1)), [0, 96, 640, 384]);
    // The empty bottom bar stretches wide but has no height.
    assert_eq!(rect(top.child(2)), [0, 480, 640, 0]);
}

#[test]
fn end_aligned_child_hugs_trailing_edge() {
    // Overlay parent: a right-aligned child sits against the right edge;
    // a bottom-aligned child in a row sits against the bottom edge.
    let mut over = BaseItem::new("over", 0, 0, [100, 40]);
    over.insert(BaseItem::new("r", 0, LAY_RIGHT, [30, 40]));
    over.run();
    assert_eq!(rect(over.child(0)), [70, 0, 30, 40]);

    let mut row = BaseItem::new("row", LAY_ROW | LAY_START, 0, [100, 50]);
    row.insert(BaseItem::new("b", 0, LAY_BOTTOM, [10, 20]));
    row.run();
    assert_eq!(rect(row.child(0)), [0, 30, 10, 20]);
}

#[test]
fn margins_reserve_space_in_a_row() {
    let mut top = BaseItem::new("top", LAY_ROW | LAY_START, 0, [100, 20]);
    let mut a = BaseItem::new("a", 0, 0, [10, 20]);
    a.margins = [5, 0, 3, 0];
    top.insert(a);
    top.insert(BaseItem::new("b", 0, 0, [7, 20]));
    top.run();
    assert_eq!(rect(top.child(0)), [5, 0, 10, 20]);
    assert_eq!(rect(top.child(1)), [18, 0, 7, 20]);
}

#[test]
fn click_and_key_fall_through_bare_trees() {
    let mut top = BaseItem::new("top", LAY_COLUMN, 0, [100, 100]);
    top.insert(BaseItem::new("a", 0, 0, [50, 50]));
    top.run();
    assert!(!top.click([10, 10]));
    assert!(!top.click([-5, -5]));
    assert!(!top.key(13, 1));
}
