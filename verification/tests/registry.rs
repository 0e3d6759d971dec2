use std::time::Duration;

use ratto::box_model::{BorderPreset, Sides};
use ratto::registry::{
    Composition, LayoutNode, MIN_PANE_CELLS, Overflow, PaneBox, PaneGeometry, PaneWidth, Registry,
    Shebang, ShellMode, SourceId, SourceProgram, SourceSpec, allocate_row, shebang,
};
use ratto::template::Template;

fn spec(id: &str) -> SourceSpec {
    SourceSpec {
        id: id.to_string(),
        program: SourceProgram::Argv(vec![Template::extract("true")]),
        shell: ShellMode::Direct,
        interval: Some(Duration::from_secs(2)),
        triggers: Vec::new(),
        debounce: Duration::from_millis(120),
        live: false,
    }
}

/// A rounded, `"0 1"`-padded pane with the status row — the shape the
/// example dashboards declare.
fn pane(height: u16, width: PaneWidth) -> PaneBox {
    PaneBox {
        height,
        width,
        overflow: Overflow::default(),
        border: BorderPreset::Rounded,
        padding: Sides {
            top: 0,
            right: 1,
            bottom: 0,
            left: 1,
        },
        title: None,
        chrome: true,
        focusable: true,
        selectable: false,
    }
}

fn stacked(n: usize) -> LayoutNode {
    LayoutNode::Column((0..n).map(|i| LayoutNode::Pane(SourceId(i))).collect())
}

#[test]
fn a_row_splits_its_cells_by_weight_and_fixed_cells() {
    let widths = [
        PaneWidth::Cells(20),
        PaneWidth::Weight(2),
        PaneWidth::Weight(1),
    ];
    let cells = allocate_row(80, 1, &widths);
    // 80 − 2 gaps = 78 usable; 20 fixed; 58 shared 2:1 with the
    // flooring leftover going to the leftmost weighted pane.
    assert_eq!(cells, vec![20, 39, 19]);
    let used: usize = cells.iter().map(|c| *c as usize).sum();
    assert_eq!(used + 2, 80, "the row must account for every cell");
}

#[test]
fn a_fixed_pane_that_cannot_fit_clamps_at_the_minimum() {
    let cells = allocate_row(20, 1, &[PaneWidth::Cells(30), PaneWidth::Weight(1)]);
    // Nothing shrinks below the floor: the row overflows the terminal
    // on purpose and the paint chops the right edge.
    assert_eq!(cells, vec![30, MIN_PANE_CELLS]);
    let used: usize = cells.iter().map(|c| *c as usize).sum();
    assert!(
        used > 20,
        "an unfittable row overflows rather than vanishing"
    );
    // A declared width under the floor is raised to it.
    assert_eq!(
        allocate_row(80, 0, &[PaneWidth::Cells(3), PaneWidth::Weight(1)]),
        vec![MIN_PANE_CELLS, 72]
    );
    assert_eq!(allocate_row(80, 1, &[]), Vec::<u16>::new());
}

#[test]
fn pane_geometry_subtracts_border_padding_and_chrome() {
    let registry = Registry::panes(
        vec![spec("plan")],
        vec![pane(7, PaneWidth::Weight(1))],
        stacked(1),
        1,
        0,
    )
    .unwrap();
    // Rounded border: 2 rows and 2 cells. Padding "0 1": 2 cells.
    // Status row: 1 row. 7 − 3 = 4 content rows; 40 − 4 = 36 cells.
    assert_eq!(
        registry.geometry((40, 24)),
        vec![PaneGeometry {
            cells: 40,
            rows: 7,
            inner_cols: 36,
            inner_rows: 4,
        }]
    );

    // Borderless, unpadded, no status row: the box IS the inner box.
    let bare = PaneBox {
        border: BorderPreset::NoBorder,
        padding: Sides::default(),
        chrome: false,
        ..pane(7, PaneWidth::Weight(1))
    };
    let registry = Registry::panes(vec![spec("plan")], vec![bare], stacked(1), 1, 0).unwrap();
    assert_eq!(
        registry.geometry((40, 24)),
        vec![PaneGeometry {
            cells: 40,
            rows: 7,
            inner_cols: 40,
            inner_rows: 7,
        }]
    );
}

#[test]
fn the_plain_composition_hands_the_terminal_size_through() {
    let registry = Registry::single(spec("watch"), Some("build".to_string()));
    assert_eq!(registry.len(), 1);
    assert!(!registry.is_empty());
    assert!(
        registry.pane(SourceId(0)).is_none(),
        "plain declares no box"
    );
    assert!(matches!(registry.composition(), Composition::Plain { .. }));
    // The shipped RAT_WIDTH/RAT_HEIGHT contract, pinned at the model
    // level: one entry, the terminal verbatim, no geometry math (I-51).
    assert_eq!(
        registry.geometry((100, 30)),
        vec![PaneGeometry {
            cells: 100,
            rows: 30,
            inner_cols: 100,
            inner_rows: 30,
        }]
    );
    // A reservation never reaches the plain contract either.
    assert_eq!(
        registry.geometry_reserving((100, 30), 2),
        registry.geometry((100, 30)),
        "plain ignores the gutter reservation"
    );
}

#[test]
fn a_reservation_comes_out_of_the_panes_width_budget() {
    // Reserving N columns equals allocating for a terminal N
    // narrower — the gutter is a region, not an overlay.
    let registry = Registry::panes(
        vec![spec("a"), spec("b")],
        vec![pane(7, PaneWidth::Weight(1)), pane(7, PaneWidth::Weight(1))],
        LayoutNode::Row(vec![
            LayoutNode::Pane(SourceId(0)),
            LayoutNode::Pane(SourceId(1)),
        ]),
        1,
        1,
    )
    .expect("a valid two-pane registry");
    assert_eq!(
        registry.geometry_reserving((80, 24), 2),
        registry.geometry((78, 24)),
    );
    assert_eq!(
        registry.geometry_reserving((80, 24), 0),
        registry.geometry((80, 24))
    );
}

#[test]
fn a_layout_naming_an_undeclared_pane_is_rejected() {
    let err = Registry::panes(
        vec![spec("plan")],
        vec![pane(7, PaneWidth::Weight(1))],
        LayoutNode::Row(vec![
            LayoutNode::Pane(SourceId(0)),
            LayoutNode::Pane(SourceId(1)),
        ]),
        1,
        0,
    )
    .unwrap_err()
    .to_string();
    assert!(err.contains("index 1"), "got {err:?}");
    assert!(err.contains("declared"), "got {err:?}");
}

#[test]
fn a_pane_missing_from_the_layout_is_rejected() {
    let err = Registry::panes(
        vec![spec("plan"), spec("guardrails")],
        vec![pane(7, PaneWidth::Weight(1)), pane(7, PaneWidth::Weight(1))],
        stacked(1),
        1,
        0,
    )
    .unwrap_err()
    .to_string();
    assert!(
        err.contains("guardrails"),
        "the error names the pane: {err:?}"
    );
    assert!(err.contains("layout"), "and where it is missing: {err:?}");
}

#[test]
fn a_pane_placed_twice_is_rejected() {
    // Identity is the index, so a pane in two rows has two geometries
    // and one output — the ambiguity dies at construction.
    let err = Registry::panes(
        vec![spec("git")],
        vec![pane(7, PaneWidth::Weight(1))],
        LayoutNode::Column(vec![
            LayoutNode::Pane(SourceId(0)),
            LayoutNode::Pane(SourceId(0)),
        ]),
        1,
        0,
    )
    .unwrap_err()
    .to_string();
    assert!(err.contains("git"), "got {err:?}");
}

#[test]
fn sources_and_panes_must_line_up() {
    let err = Registry::panes(
        vec![spec("plan"), spec("git")],
        vec![pane(7, PaneWidth::Weight(1))],
        stacked(2),
        1,
        0,
    )
    .unwrap_err()
    .to_string();
    assert!(err.contains('2') && err.contains('1'), "got {err:?}");
}

#[test]
fn a_height_below_its_chrome_is_rejected_and_names_the_pane() {
    // Rounded border (2 rows) + status row (1) leaves nothing for the
    // child at height 3.
    let err = Registry::panes(
        vec![spec("guardrails")],
        vec![pane(3, PaneWidth::Weight(1))],
        stacked(1),
        1,
        0,
    )
    .unwrap_err()
    .to_string();
    assert!(
        err.contains("guardrails"),
        "the error names the pane: {err:?}"
    );
    assert!(
        err.contains('4'),
        "and the smallest height that works: {err:?}"
    );
    // One content row is enough.
    assert!(
        Registry::panes(
            vec![spec("guardrails")],
            vec![pane(4, PaneWidth::Weight(1))],
            stacked(1),
            1,
            0,
        )
        .is_ok()
    );
}

#[test]
fn a_stacked_fixed_width_pane_keeps_its_declared_cells() {
    // Cells is exact everywhere, not just inside a row: a declared
    // width the layout silently overrode would be a lie in the
    // child's RAT_WIDTH.
    let registry = Registry::panes(
        vec![spec("narrow")],
        vec![pane(7, PaneWidth::Cells(20))],
        stacked(1),
        1,
        0,
    )
    .unwrap();
    assert_eq!(registry.geometry((80, 24))[0].cells, 20);
}

#[test]
fn an_unpayable_padding_is_an_error_not_a_panic() {
    // Saturating arithmetic end to end: a padding that consumes
    // more than u16 can hold must come back as the validation
    // error, never an overflow panic.
    let bloated = PaneBox {
        padding: Sides {
            top: usize::MAX,
            right: 1,
            bottom: usize::MAX,
            left: 1,
        },
        ..pane(u16::MAX, PaneWidth::Weight(1))
    };
    let err = Registry::panes(vec![spec("pad")], vec![bloated], stacked(1), 1, 0)
        .unwrap_err()
        .to_string();
    assert!(err.contains("pad"), "names the pane: {err}");
}

#[test]
fn ids_walk_the_registry_in_declaration_order() {
    // The combining hash and the runtime vec are both index-keyed
    // (I-45), so this order is a contract, not a convenience.
    let registry = Registry::panes(
        vec![spec("plan"), spec("git"), spec("guardrails")],
        vec![
            pane(7, PaneWidth::Weight(1)),
            pane(7, PaneWidth::Cells(20)),
            pane(7, PaneWidth::Weight(1)),
        ],
        LayoutNode::Column(vec![
            LayoutNode::Pane(SourceId(0)),
            LayoutNode::Row(vec![
                LayoutNode::Pane(SourceId(1)),
                LayoutNode::Pane(SourceId(2)),
            ]),
        ]),
        1,
        0,
    )
    .unwrap();
    assert_eq!(
        registry.ids(),
        vec![SourceId(0), SourceId(1), SourceId(2)]
    );
    assert_eq!(registry.spec(SourceId(2)).id, "guardrails");
    let geom = registry.geometry((80, 40));
    // The stacked pane owns the full width; the row splits it: the
    // fixed pane takes 20, the weighted one the rest minus the gap.
    assert_eq!(geom[0].cells, 80);
    assert_eq!(geom[1].cells, 20);
    assert_eq!(geom[2].cells, 59);
}

#[test]
fn a_body_without_a_shebang_has_no_interpreter() {
    // No `#!` at all; after a space; after a BOM; bare `#!`; `#!`
    // followed by nothing but whitespace. Each is a ROUTE (the body
    // runs through the pane's shell), never an error.
    for body in [
        "echo hi",
        " #!/bin/sh\necho hi",
        "\u{feff}#!/bin/sh\necho hi",
        "#!",
        "#!   \necho hi",
    ] {
        assert_eq!(shebang(body), None, "{body:?}");
    }
}

#[test]
fn a_shebang_names_its_interpreter_and_one_argument() {
    assert_eq!(
        shebang("#!/bin/sh\necho hi"),
        Some(Shebang {
            interpreter: "/bin/sh".into(),
            arg: None,
        })
    );
    assert_eq!(
        shebang("#!/usr/bin/awk -f\n{ print }"),
        Some(Shebang {
            interpreter: "/usr/bin/awk".into(),
            arg: Some("-f".into()),
        })
    );
    // Space after the magic is tolerated (the historical unix form).
    assert_eq!(
        shebang("#! /bin/sh\necho hi"),
        Some(Shebang {
            interpreter: "/bin/sh".into(),
            arg: None,
        })
    );
    // A one-line body with no newline at all still parses.
    assert_eq!(
        shebang("#!/usr/bin/env fish"),
        Some(Shebang {
            interpreter: "/usr/bin/env".into(),
            arg: Some("fish".into()),
        })
    );
}

#[test]
fn the_one_argument_rule_keeps_the_remainder_whole() {
    // Everything after the interpreter is ONE argument, spaces
    // included. (Kernel-arm splitting differs per OS and is never
    // asserted; the Interpreter arm implements this rule.)
    assert_eq!(
        shebang("#!/usr/bin/env -S deno run --allow-net\nDeno.exit(0)"),
        Some(Shebang {
            interpreter: "/usr/bin/env".into(),
            arg: Some("-S deno run --allow-net".into()),
        })
    );
}

#[test]
fn a_shebang_line_survives_a_carriage_return() {
    // kdl normalizes literal CRLF, but an explicit `\r` escape can
    // still deliver one; exactly one trailing CR is stripped.
    assert_eq!(
        shebang("#!/bin/sh\r\necho hi"),
        Some(Shebang {
            interpreter: "/bin/sh".into(),
            arg: None,
        })
    );
}


#[test]
fn only_the_first_line_is_read_for_a_shebang() {
    assert_eq!(shebang("#!/bin/sh -e\nexit 1"), shebang("#!/bin/sh -e\n#!/usr/bin/env python3"));
    let s = shebang("#!/usr/bin/env  python3 \r\nprint()").expect("a shebang");
    assert_eq!(s.interpreter, "/usr/bin/env");
    assert_eq!(s.arg.as_deref(), Some("python3"));
}
