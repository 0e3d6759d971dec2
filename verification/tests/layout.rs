use ratto::layout::{overflow_clip, pane_order, pane_rects, scroll_badge, PaneRect};
use ratto::registry::{LayoutNode, Overflow, SourceId};

#[test]
fn the_rect_walk_mirrors_the_stack_and_beside_offsets() {
    // Depth two: a column of two rows, the second row taller than
    // the first and narrower.
    let root = LayoutNode::Column(vec![
        LayoutNode::Row(vec![LayoutNode::Pane(SourceId(0)), LayoutNode::Pane(SourceId(1))]),
        LayoutNode::Row(vec![LayoutNode::Pane(SourceId(2)), LayoutNode::Pane(SourceId(3))]),
    ]);
    let sizes = [(4, 10), (4, 20), (6, 12), (6, 8)];
    let mut rects = vec![PaneRect::default(); 4];
    let (rows, cols) = pane_rects(&root, &sizes, 2, 1, (0, 0), &mut rects);
    assert_eq!(rects[0], PaneRect { row: 0, col: 0, rows: 4, cols: 10 });
    // Past the first pane's cells plus the gap.
    assert_eq!(rects[1], PaneRect { row: 0, col: 12, rows: 4, cols: 20 });
    // One blank row below the first row's height.
    assert_eq!(rects[2], PaneRect { row: 5, col: 0, rows: 6, cols: 12 });
    assert_eq!(rects[3], PaneRect { row: 5, col: 14, rows: 6, cols: 8 });
    // A column is as wide as its widest row and as tall as the sum
    // of its rows plus the gaps between them.
    assert_eq!((rows, cols), (11, 32));
}

#[test]
fn pane_order_flattens_in_declaration_order() {
    let root = LayoutNode::Column(vec![
        LayoutNode::Row(vec![LayoutNode::Pane(SourceId(2)), LayoutNode::Pane(SourceId(0))]),
        LayoutNode::Pane(SourceId(1)),
    ]);
    // The tree's order, never the id's: rows left to right, columns
    // top to bottom.
    assert_eq!(pane_order(&root), vec![SourceId(2), SourceId(0), SourceId(1)]);
    assert!(pane_order(&LayoutNode::Row(Vec::new())).is_empty());
}

#[test]
fn the_overflow_clip_is_the_declared_viewport() {
    assert_eq!(overflow_clip(Overflow::KeepTop, 100, 3), 0);
    assert_eq!(overflow_clip(Overflow::KeepBottom, 100, 3), 97);
    // A body shorter than the window never clips, either way.
    assert_eq!(overflow_clip(Overflow::KeepBottom, 2, 3), 0);
    assert_eq!(overflow_clip(Overflow::KeepTop, 0, 3), 0);
}

#[test]
fn the_scroll_badge_is_the_scrolled_rows_phrase() {
    assert_eq!(scroll_badge(11, 22, 300), "lines 12-33 of 300");
    // A window past the body's tail reports what it actually holds.
    assert_eq!(scroll_badge(8, 22, 10), "lines 9-10 of 10");
}

#[test]
fn a_pane_with_no_size_takes_no_room() {
    // An id past the declared sizes is placed with no extent, and an id
    // past the output slots records nothing.
    let root = LayoutNode::Row(vec![LayoutNode::Pane(SourceId(0)), LayoutNode::Pane(SourceId(5))]);
    let mut rects = vec![PaneRect::default(); 1];
    let (rows, cols) = pane_rects(&root, &[(3, 7)], 1, 0, (2, 4), &mut rects);
    assert_eq!(rects[0], PaneRect { row: 2, col: 4, rows: 3, cols: 7 });
    assert_eq!((rows, cols), (3, 8));
}

#[test]
fn the_badge_at_the_head_counts_from_one() {
    assert_eq!(scroll_badge(0, 5, 3), "lines 1-3 of 3");
    assert_eq!(scroll_badge(0, 0, 0), "lines 1-0 of 0");
}
