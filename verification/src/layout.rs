//! Where panes sit: the reading order of a layout tree, the rectangle
//! each pane occupies in the composed frame, and the two numbers a
//! pane's window is described by.
use vstd::prelude::*;
use vstd::string::*;

use crate::registry::{children_ids, flatten_into, layout_ids, LayoutNode, Overflow, SourceId};
use crate::text::{decimal, decimal_string};

verus! {

broadcast use vstd::string::group_string_axioms;

/// The lines a pane's window drops from the head of a body of `total`
/// lines shown `rows` at a time: none when the head is kept, the whole
/// overhang when the tail is.
pub open spec fn max_offset_spec(total: usize, rows: usize) -> usize {
    if total > rows { (total - rows) as usize } else { 0 }
}

/// The viewport a pane's declared `Overflow` asks for: how many leading
/// lines the box drops.
pub fn overflow_clip(overflow: Overflow, total: usize, rows: usize) -> (r: usize)
    ensures
        r == match overflow {
            Overflow::KeepTop => 0,
            Overflow::KeepBottom => max_offset_spec(total, rows),
        },
{
    match overflow {
        Overflow::KeepTop => 0,
        Overflow::KeepBottom => total.saturating_sub(rows),
    }
}

pub open spec fn scroll_badge_spec(offset: usize, window: usize, total: usize) -> Seq<char> {
    let left = if total > offset { total - offset } else { 0 };
    let shown = if left < window { left } else { window as int };
    "lines "@ + decimal((offset + 1) as nat) + "-"@ + decimal((offset + shown) as nat) + " of "@ + decimal(total as nat)
}

/// A pane's window as a badge: `lines 12-33 of 300`, 1-based, counting
/// what the window actually holds.
pub fn scroll_badge(offset: usize, window: usize, total: usize) -> (s: String)
    requires
        offset < usize::MAX,
    ensures
        s@ == scroll_badge_spec(offset, window, total),
{
    let left = total.saturating_sub(offset);
    let shown = if left < window { left } else { window };
    let mut s = String::from_str("lines ");
    let a = decimal_string((offset + 1) as u64);
    s.append(a.as_str());
    s.append("-");
    let b = decimal_string((offset + shown) as u64);
    s.append(b.as_str());
    s.append(" of ");
    let c = decimal_string(total as u64);
    s.append(c.as_str());
    s
}

/// Every pane in the tree's reading order: rows left to right, columns
/// top to bottom.
pub fn pane_order(root: &LayoutNode) -> (v: Vec<SourceId>)
    ensures
        v@ == layout_ids(*root),
{
    let mut v: Vec<SourceId> = Vec::new();
    flatten_into(root, &mut v);
    assert(v@ =~= layout_ids(*root));
    v
}

/// Where one pane sits in the composed frame, in rows and cells.
#[derive(Clone, Copy, PartialEq, Eq, Debug, Default, Structural)]
pub struct PaneRect {
    pub row: usize,
    pub col: usize,
    pub rows: usize,
    pub cols: usize,
}

pub open spec fn sat_add(a: usize, b: usize) -> usize {
    if a + b > usize::MAX { usize::MAX } else { (a + b) as usize }
}

pub open spec fn max_usize(a: usize, b: usize) -> usize {
    if a < b { b } else { a }
}

/// The size a pane is given, or nothing past the declared ones.
pub open spec fn size_of(sizes: Seq<(usize, usize)>, id: usize) -> (usize, usize) {
    if id < sizes.len() { sizes[id as int] } else { (0, 0) }
}

/// The rows and cells a node takes: a pane its size; a column its
/// parts stacked with `row_gap` blank rows between, as wide as the
/// widest; a row its parts side by side with `gap` cells between, as
/// tall as the tallest.
pub open spec fn extent(node: LayoutNode, sizes: Seq<(usize, usize)>, gap: usize, row_gap: usize) -> (usize, usize)
    decreases node,
{
    match node {
        LayoutNode::Pane(id) => size_of(sizes, id.0),
        LayoutNode::Column(children) => column_extent(children@, sizes, gap, row_gap),
        LayoutNode::Row(children) => row_extent(children@, sizes, gap, row_gap),
    }
}

pub open spec fn column_extent(children: Seq<LayoutNode>, sizes: Seq<(usize, usize)>, gap: usize, row_gap: usize) -> (
    usize,
    usize,
)
    decreases children,
{
    if children.len() == 0 {
        (0, 0)
    } else {
        let (rows, cols) = column_extent(children.drop_last(), sizes, gap, row_gap);
        let (h, w) = extent(children.last(), sizes, gap, row_gap);
        let base = if children.len() > 1 { sat_add(rows, row_gap) } else { rows };
        (sat_add(base, h), max_usize(cols, w))
    }
}

pub open spec fn row_extent(children: Seq<LayoutNode>, sizes: Seq<(usize, usize)>, gap: usize, row_gap: usize) -> (
    usize,
    usize,
)
    decreases children,
{
    if children.len() == 0 {
        (0, 0)
    } else {
        let (rows, cols) = row_extent(children.drop_last(), sizes, gap, row_gap);
        let (h, w) = extent(children.last(), sizes, gap, row_gap);
        let base = if children.len() > 1 { sat_add(cols, gap) } else { cols };
        (max_usize(rows, h), sat_add(base, w))
    }
}

/// The table after a node's panes are recorded from `origin`: each
/// pane's rectangle written at its id, in reading order.
pub open spec fn node_writes(
    node: LayoutNode,
    sizes: Seq<(usize, usize)>,
    gap: usize,
    row_gap: usize,
    origin: (usize, usize),
    out: Seq<PaneRect>,
) -> Seq<PaneRect>
    decreases node,
{
    match node {
        LayoutNode::Pane(id) => if id.0 < out.len() {
            out.update(
                id.0 as int,
                PaneRect { row: origin.0, col: origin.1, rows: size_of(sizes, id.0).0, cols: size_of(sizes, id.0).1 },
            )
        } else {
            out
        },
        LayoutNode::Column(children) => column_writes(children@, sizes, gap, row_gap, origin, out),
        LayoutNode::Row(children) => row_writes(children@, sizes, gap, row_gap, origin, out),
    }
}

/// A column's parts, each below the ones before and `row_gap` rows on.
pub open spec fn column_writes(
    children: Seq<LayoutNode>,
    sizes: Seq<(usize, usize)>,
    gap: usize,
    row_gap: usize,
    origin: (usize, usize),
    out: Seq<PaneRect>,
) -> Seq<PaneRect>
    decreases children,
{
    if children.len() == 0 {
        out
    } else {
        let prev = column_writes(children.drop_last(), sizes, gap, row_gap, origin, out);
        let rows = column_extent(children.drop_last(), sizes, gap, row_gap).0;
        let off = if children.len() > 1 { sat_add(rows, row_gap) } else { rows };
        node_writes(children.last(), sizes, gap, row_gap, (sat_add(origin.0, off), origin.1), prev)
    }
}

/// A row's parts, each right of the ones before and `gap` cells on.
pub open spec fn row_writes(
    children: Seq<LayoutNode>,
    sizes: Seq<(usize, usize)>,
    gap: usize,
    row_gap: usize,
    origin: (usize, usize),
    out: Seq<PaneRect>,
) -> Seq<PaneRect>
    decreases children,
{
    if children.len() == 0 {
        out
    } else {
        let prev = row_writes(children.drop_last(), sizes, gap, row_gap, origin, out);
        let cols = row_extent(children.drop_last(), sizes, gap, row_gap).1;
        let off = if children.len() > 1 { sat_add(cols, gap) } else { cols };
        node_writes(children.last(), sizes, gap, row_gap, (origin.0, sat_add(origin.1, off)), prev)
    }
}

/// Walk the tree the way stacking and joining lay it out, recording
/// each pane's rectangle from `origin`; returns the node's extent.
pub fn pane_rects(
    root: &LayoutNode,
    sizes: &[(usize, usize)],
    gap: usize,
    row_gap: usize,
    origin: (usize, usize),
    out: &mut Vec<PaneRect>,
) -> (r: (usize, usize))
    ensures
        r == extent(*root, sizes@, gap, row_gap),
        final(out)@.len() == old(out)@.len(),
        final(out)@ == node_writes(*root, sizes@, gap, row_gap, origin, old(out)@),
        root matches LayoutNode::Pane(id) ==> (id.0 < old(out)@.len() ==> final(out)@[id.0 as int] == PaneRect {
            row: origin.0,
            col: origin.1,
            rows: size_of(sizes@, id.0).0,
            cols: size_of(sizes@, id.0).1,
        }),
    decreases root,
{
    match root {
        LayoutNode::Pane(id) => {
            let (rows, cols) = if id.0 < sizes.len() { sizes[id.0] } else { (0, 0) };
            if id.0 < out.len() {
                out.set(id.0, PaneRect { row: origin.0, col: origin.1, rows, cols });
            }
            (rows, cols)
        },
        LayoutNode::Column(children) => column_rects(children, sizes, gap, row_gap, origin, out),
        LayoutNode::Row(children) => row_rects(children, sizes, gap, row_gap, origin, out),
    }
}

fn column_rects(
    children: &Vec<LayoutNode>,
    sizes: &[(usize, usize)],
    gap: usize,
    row_gap: usize,
    origin: (usize, usize),
    out: &mut Vec<PaneRect>,
) -> (r: (usize, usize))
    ensures
        r == column_extent(children@, sizes@, gap, row_gap),
        final(out)@.len() == old(out)@.len(),
        final(out)@ == column_writes(children@, sizes@, gap, row_gap, origin, old(out)@),
    decreases children,
{
    let mut rows: usize = 0;
    let mut cols: usize = 0;
    let mut i: usize = 0;
    while i < children.len()
        invariant
            i <= children@.len(),
            out@.len() == old(out)@.len(),
            (rows, cols) == column_extent(children@.take(i as int), sizes@, gap, row_gap),
            out@ == column_writes(children@.take(i as int), sizes@, gap, row_gap, origin, old(out)@),
        decreases children@.len() - i,
    {
        proof {
            assert(children@.take(i + 1).drop_last() =~= children@.take(i as int));
            assert(children@.take(i + 1).last() == children@[i as int]);
        }
        if i > 0 {
            rows = rows.saturating_add(row_gap);
        }
        let (h, w) = pane_rects(&children[i], sizes, gap, row_gap, (origin.0.saturating_add(rows), origin.1), out);
        rows = rows.saturating_add(h);
        cols = if cols < w { w } else { cols };
        i = i + 1;
    }
    assert(children@.take(children@.len() as int) =~= children@);
    assert(children@.take(0) =~= Seq::<LayoutNode>::empty());
    (rows, cols)
}

fn row_rects(
    children: &Vec<LayoutNode>,
    sizes: &[(usize, usize)],
    gap: usize,
    row_gap: usize,
    origin: (usize, usize),
    out: &mut Vec<PaneRect>,
) -> (r: (usize, usize))
    ensures
        r == row_extent(children@, sizes@, gap, row_gap),
        final(out)@.len() == old(out)@.len(),
        final(out)@ == row_writes(children@, sizes@, gap, row_gap, origin, old(out)@),
    decreases children,
{
    let mut rows: usize = 0;
    let mut cols: usize = 0;
    let mut i: usize = 0;
    while i < children.len()
        invariant
            i <= children@.len(),
            out@.len() == old(out)@.len(),
            (rows, cols) == row_extent(children@.take(i as int), sizes@, gap, row_gap),
            out@ == row_writes(children@.take(i as int), sizes@, gap, row_gap, origin, old(out)@),
        decreases children@.len() - i,
    {
        proof {
            assert(children@.take(i + 1).drop_last() =~= children@.take(i as int));
            assert(children@.take(i + 1).last() == children@[i as int]);
        }
        if i > 0 {
            cols = cols.saturating_add(gap);
        }
        let (h, w) = pane_rects(&children[i], sizes, gap, row_gap, (origin.0, origin.1.saturating_add(cols)), out);
        cols = cols.saturating_add(w);
        rows = if rows < h { h } else { rows };
        i = i + 1;
    }
    assert(children@.take(children@.len() as int) =~= children@);
    assert(children@.take(0) =~= Seq::<LayoutNode>::empty());
    (rows, cols)
}

/// The widths of `children`, added up.
pub open spec fn widths_sum(children: Seq<LayoutNode>, sizes: Seq<(usize, usize)>, gap: usize, row_gap: usize) -> int
    decreases children.len(),
{
    if children.len() == 0 {
        0
    } else {
        widths_sum(children.drop_last(), sizes, gap, row_gap) + extent(children.last(), sizes, gap, row_gap).1
    }
}

proof fn lemma_widths_sum_nonneg(children: Seq<LayoutNode>, sizes: Seq<(usize, usize)>, gap: usize, row_gap: usize)
    ensures
        widths_sum(children, sizes, gap, row_gap) >= 0,
    decreases children.len(),
{
    if children.len() > 0 {
        lemma_widths_sum_nonneg(children.drop_last(), sizes, gap, row_gap);
    }
}

/// A row is as wide as its parts side by side with `gap` cells between
/// each two neighbours: the sum of their widths plus `(n - 1) * gap`,
/// saturating at `usize::MAX`.
pub proof fn law_row_width_is_parts_plus_gaps(children: Seq<LayoutNode>, sizes: Seq<(usize, usize)>, gap: usize, row_gap: usize)
    requires
        children.len() >= 1,
    ensures
        row_extent(children, sizes, gap, row_gap).1 as int == min_int(
            widths_sum(children, sizes, gap, row_gap) + (children.len() - 1) * gap,
            usize::MAX as int,
        ),
    decreases children.len(),
{
    let n = children.len() as int;
    let w = extent(children.last(), sizes, gap, row_gap).1 as int;
    lemma_widths_sum_nonneg(children.drop_last(), sizes, gap, row_gap);
    if n == 1 {
        assert(children.drop_last().len() == 0);
        assert(row_extent(children.drop_last(), sizes, gap, row_gap) == (0usize, 0usize));
    } else {
        law_row_width_is_parts_plus_gaps(children.drop_last(), sizes, gap, row_gap);
        let prev = widths_sum(children.drop_last(), sizes, gap, row_gap);
        assert((n - 1) * gap == (n - 2) * gap + gap) by (nonlinear_arith);
        assert((n - 2) * gap >= 0) by (nonlinear_arith)
            requires n >= 2, gap >= 0;
    }
}

pub open spec fn min_int(a: int, b: int) -> int {
    if a <= b { a } else { b }
}

/// Every child of the row is a pane, and no pane appears twice.
pub open spec fn distinct_panes(children: Seq<LayoutNode>, slots: int) -> bool {
    &&& forall|j: int| 0 <= j < children.len() ==> (#[trigger] children[j]) is Pane && (children[j]->Pane_0).0 < slots
    &&& forall|j: int, k: int| 0 <= j < k < children.len() ==> (#[trigger] children[j])->Pane_0 != (#[trigger] children[k])->Pane_0
}

/// In a row of panes, pane `i` sits on the row's top line, starts after
/// the widths of the panes before it and one `gap` per pane before it
/// (saturating at `usize::MAX`), and keeps its declared size.
pub proof fn law_row_places_each_pane_past_the_ones_before(
    children: Seq<LayoutNode>,
    sizes: Seq<(usize, usize)>,
    gap: usize,
    row_gap: usize,
    origin: (usize, usize),
    out: Seq<PaneRect>,
    i: int,
)
    requires
        distinct_panes(children, out.len() as int),
        0 <= i < children.len(),
    ensures
        ({
            let id = (children[i]->Pane_0).0;
            row_writes(children, sizes, gap, row_gap, origin, out)[id as int] == PaneRect {
                row: origin.0,
                col: min_int(origin.1 + widths_sum(children.take(i), sizes, gap, row_gap) + i * gap, usize::MAX as int) as usize,
                rows: size_of(sizes, id).0,
                cols: size_of(sizes, id).1,
            }
        }),
    decreases children.len(),
{
    let m = children.len() as int;
    let front = children.drop_last();
    assert(distinct_panes(front, out.len() as int)) by {
        assert forall|j: int| 0 <= j < front.len() implies (#[trigger] front[j]) is Pane && (front[j]->Pane_0).0 < out.len() by {
            assert(front[j] == children[j]);
        }
        assert forall|j: int, k: int| 0 <= j < k < front.len() implies (#[trigger] front[j])->Pane_0 != (#[trigger] front[k])->Pane_0 by {
            assert(front[j] == children[j] && front[k] == children[k]);
        }
    }
    let prev = row_writes(front, sizes, gap, row_gap, origin, out);
    lemma_row_writes_len(front, sizes, gap, row_gap, origin, out);
    let last = children.last();
    assert(last == children[m - 1]);
    let lid = (last->Pane_0).0;
    let cols = row_extent(front, sizes, gap, row_gap).1;
    let off = if m > 1 { sat_add(cols, gap) } else { cols };
    let o2 = (origin.0, sat_add(origin.1, off));
    assert(row_writes(children, sizes, gap, row_gap, origin, out) == node_writes(last, sizes, gap, row_gap, o2, prev));
    assert(last == LayoutNode::Pane(last->Pane_0));
    assert(lid < prev.len());
    assert(node_writes(last, sizes, gap, row_gap, o2, prev) == prev.update(lid as int, PaneRect {
        row: o2.0,
        col: o2.1,
        rows: size_of(sizes, lid).0,
        cols: size_of(sizes, lid).1,
    }));
    if i < m - 1 {
        law_row_places_each_pane_past_the_ones_before(front, sizes, gap, row_gap, origin, out, i);
        assert(front[i] == children[i]);
        assert(front.take(i) =~= children.take(i));
        assert((children[i]->Pane_0).0 != lid);
        let id = (children[i]->Pane_0).0;
        assert(prev.update(lid as int, PaneRect {
            row: o2.0,
            col: o2.1,
            rows: size_of(sizes, lid).0,
            cols: size_of(sizes, lid).1,
        })[id as int] == prev[id as int]);
    } else {
        assert(children.take(i) =~= front);
        lemma_widths_sum_nonneg(front, sizes, gap, row_gap);
        if m == 1 {
            assert(front.len() == 0);
            assert(row_extent(front, sizes, gap, row_gap) == (0usize, 0usize));
            assert(widths_sum(front, sizes, gap, row_gap) == 0);
            assert(i * gap == 0) by (nonlinear_arith)
                requires i == 0;
        } else {
            law_row_width_is_parts_plus_gaps(front, sizes, gap, row_gap);
            assert((m - 1) * gap == (m - 2) * gap + gap) by (nonlinear_arith);
            assert((m - 2) * gap >= 0) by (nonlinear_arith)
                requires m >= 2, gap >= 0;
            let w = widths_sum(front, sizes, gap, row_gap);
            assert(off as int == min_int(w + (m - 1) * gap, usize::MAX as int));
        }
        assert(children[i] == last);
        assert(o2.1 as int == min_int(origin.1 + widths_sum(children.take(i), sizes, gap, row_gap) + i * gap, usize::MAX as int));
    }
}

/// The heights of `children`, added up.
pub open spec fn heights_sum(children: Seq<LayoutNode>, sizes: Seq<(usize, usize)>, gap: usize, row_gap: usize) -> int
    decreases children.len(),
{
    if children.len() == 0 {
        0
    } else {
        heights_sum(children.drop_last(), sizes, gap, row_gap) + extent(children.last(), sizes, gap, row_gap).0
    }
}

proof fn lemma_heights_sum_nonneg(children: Seq<LayoutNode>, sizes: Seq<(usize, usize)>, gap: usize, row_gap: usize)
    ensures
        heights_sum(children, sizes, gap, row_gap) >= 0,
    decreases children.len(),
{
    if children.len() > 0 {
        lemma_heights_sum_nonneg(children.drop_last(), sizes, gap, row_gap);
    }
}

/// A column is as tall as its parts stacked with `row_gap` blank rows
/// between each two neighbours: the sum of their heights plus
/// `(n - 1) * row_gap`, saturating at `usize::MAX`.
pub proof fn law_column_height_is_parts_plus_gaps(children: Seq<LayoutNode>, sizes: Seq<(usize, usize)>, gap: usize, row_gap: usize)
    requires
        children.len() >= 1,
    ensures
        column_extent(children, sizes, gap, row_gap).0 as int == min_int(
            heights_sum(children, sizes, gap, row_gap) + (children.len() - 1) * row_gap,
            usize::MAX as int,
        ),
    decreases children.len(),
{
    let n = children.len() as int;
    let w = extent(children.last(), sizes, gap, row_gap).0 as int;
    lemma_heights_sum_nonneg(children.drop_last(), sizes, gap, row_gap);
    if n == 1 {
        assert(children.drop_last().len() == 0);
        assert(column_extent(children.drop_last(), sizes, gap, row_gap) == (0usize, 0usize));
    } else {
        law_column_height_is_parts_plus_gaps(children.drop_last(), sizes, gap, row_gap);
        let prev = heights_sum(children.drop_last(), sizes, gap, row_gap);
        assert((n - 1) * row_gap == (n - 2) * row_gap + row_gap) by (nonlinear_arith);
        assert((n - 2) * row_gap >= 0) by (nonlinear_arith)
            requires n >= 2, row_gap >= 0;
    }
}

/// In a column of panes, pane `i` sits at the column's left edge, starts
/// below the heights of the panes before it and one `row_gap` per pane
/// before it (saturating at `usize::MAX`), and keeps its declared size.
pub proof fn law_column_places_each_pane_below_the_ones_before(
    children: Seq<LayoutNode>,
    sizes: Seq<(usize, usize)>,
    gap: usize,
    row_gap: usize,
    origin: (usize, usize),
    out: Seq<PaneRect>,
    i: int,
)
    requires
        distinct_panes(children, out.len() as int),
        0 <= i < children.len(),
    ensures
        ({
            let id = (children[i]->Pane_0).0;
            column_writes(children, sizes, gap, row_gap, origin, out)[id as int] == PaneRect {
                row: min_int(origin.0 + heights_sum(children.take(i), sizes, gap, row_gap) + i * row_gap, usize::MAX as int) as usize,
                col: origin.1,
                rows: size_of(sizes, id).0,
                cols: size_of(sizes, id).1,
            }
        }),
    decreases children.len(),
{
    let m = children.len() as int;
    let front = children.drop_last();
    assert(distinct_panes(front, out.len() as int)) by {
        assert forall|j: int| 0 <= j < front.len() implies (#[trigger] front[j]) is Pane && (front[j]->Pane_0).0 < out.len() by {
            assert(front[j] == children[j]);
        }
        assert forall|j: int, k: int| 0 <= j < k < front.len() implies (#[trigger] front[j])->Pane_0 != (#[trigger] front[k])->Pane_0 by {
            assert(front[j] == children[j] && front[k] == children[k]);
        }
    }
    let prev = column_writes(front, sizes, gap, row_gap, origin, out);
    lemma_column_writes_len(front, sizes, gap, row_gap, origin, out);
    let last = children.last();
    assert(last == children[m - 1]);
    let lid = (last->Pane_0).0;
    let rows = column_extent(front, sizes, gap, row_gap).0;
    let off = if m > 1 { sat_add(rows, row_gap) } else { rows };
    let o2 = (sat_add(origin.0, off), origin.1);
    assert(column_writes(children, sizes, gap, row_gap, origin, out) == node_writes(last, sizes, gap, row_gap, o2, prev));
    assert(last == LayoutNode::Pane(last->Pane_0));
    assert(lid < prev.len());
    assert(node_writes(last, sizes, gap, row_gap, o2, prev) == prev.update(lid as int, PaneRect {
        row: o2.0,
        col: o2.1,
        rows: size_of(sizes, lid).0,
        cols: size_of(sizes, lid).1,
    }));
    if i < m - 1 {
        law_column_places_each_pane_below_the_ones_before(front, sizes, gap, row_gap, origin, out, i);
        assert(front[i] == children[i]);
        assert(front.take(i) =~= children.take(i));
        assert((children[i]->Pane_0).0 != lid);
        let id = (children[i]->Pane_0).0;
        assert(prev.update(lid as int, PaneRect {
            row: o2.0,
            col: o2.1,
            rows: size_of(sizes, lid).0,
            cols: size_of(sizes, lid).1,
        })[id as int] == prev[id as int]);
    } else {
        assert(children.take(i) =~= front);
        lemma_heights_sum_nonneg(front, sizes, gap, row_gap);
        if m == 1 {
            assert(front.len() == 0);
            assert(column_extent(front, sizes, gap, row_gap) == (0usize, 0usize));
            assert(heights_sum(front, sizes, gap, row_gap) == 0);
            assert(off == 0);
            assert(o2.0 == origin.0);
            assert(i * row_gap == 0) by (nonlinear_arith)
                requires i == 0;
        } else {
            law_column_height_is_parts_plus_gaps(front, sizes, gap, row_gap);
            assert((m - 1) * row_gap == (m - 2) * row_gap + row_gap) by (nonlinear_arith);
            assert((m - 2) * row_gap >= 0) by (nonlinear_arith)
                requires m >= 2, row_gap >= 0;
            let w = heights_sum(front, sizes, gap, row_gap);
            assert(off as int == min_int(w + (m - 1) * row_gap, usize::MAX as int));
        }
        assert(children[i] == last);
        assert(i == m - 1);
        assert(i * row_gap == (m - 1) * row_gap);
        assert(heights_sum(children.take(i), sizes, gap, row_gap) == heights_sum(front, sizes, gap, row_gap));
        assert(o2.0 as int == min_int(origin.0 + heights_sum(children.take(i), sizes, gap, row_gap) + i * row_gap, usize::MAX as int));
    }
}

proof fn lemma_row_writes_len(children: Seq<LayoutNode>, sizes: Seq<(usize, usize)>, gap: usize, row_gap: usize, origin: (usize, usize), out: Seq<PaneRect>)
    requires
        forall|j: int| 0 <= j < children.len() ==> (#[trigger] children[j]) is Pane,
    ensures
        row_writes(children, sizes, gap, row_gap, origin, out).len() == out.len(),
    decreases children.len(),
{
    if children.len() > 0 {
        assert forall|j: int| 0 <= j < children.drop_last().len() implies (#[trigger] children.drop_last()[j]) is Pane by {
            assert(children.drop_last()[j] == children[j]);
        }
        lemma_row_writes_len(children.drop_last(), sizes, gap, row_gap, origin, out);
        assert(children.last() == children[children.len() - 1]);
        let prev = row_writes(children.drop_last(), sizes, gap, row_gap, origin, out);
        let cols = row_extent(children.drop_last(), sizes, gap, row_gap).1;
        let off = if children.len() > 1 { sat_add(cols, gap) } else { cols };
        let o2 = (origin.0, sat_add(origin.1, off));
        assert(row_writes(children, sizes, gap, row_gap, origin, out) == node_writes(children.last(), sizes, gap, row_gap, o2, prev));
        let id = children.last()->Pane_0;
        assert(children.last() == LayoutNode::Pane(id));
    }
}

proof fn lemma_column_writes_len(children: Seq<LayoutNode>, sizes: Seq<(usize, usize)>, gap: usize, row_gap: usize, origin: (usize, usize), out: Seq<PaneRect>)
    requires
        forall|j: int| 0 <= j < children.len() ==> (#[trigger] children[j]) is Pane,
    ensures
        column_writes(children, sizes, gap, row_gap, origin, out).len() == out.len(),
    decreases children.len(),
{
    if children.len() > 0 {
        assert forall|j: int| 0 <= j < children.drop_last().len() implies (#[trigger] children.drop_last()[j]) is Pane by {
            assert(children.drop_last()[j] == children[j]);
        }
        lemma_column_writes_len(children.drop_last(), sizes, gap, row_gap, origin, out);
        assert(children.last() == children[children.len() - 1]);
        let prev = column_writes(children.drop_last(), sizes, gap, row_gap, origin, out);
        let rows = column_extent(children.drop_last(), sizes, gap, row_gap).0;
        let off = if children.len() > 1 { sat_add(rows, row_gap) } else { rows };
        let o2 = (sat_add(origin.0, off), origin.1);
        assert(column_writes(children, sizes, gap, row_gap, origin, out) == node_writes(children.last(), sizes, gap, row_gap, o2, prev));
        let id = children.last()->Pane_0;
        assert(children.last() == LayoutNode::Pane(id));
    }
}

} // verus!
