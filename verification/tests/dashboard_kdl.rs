use ratto::dashboard_file::{DashboardFile, LayoutDecl, PaneDecl, TitleDecl};
use ratto::dashboard_kdl::{line_column, parse, parse_styled, syntax_error_text};
use ratto::registry::{Composition, Registry, ShellDecl, ShellMode, SourceId, TitleSource};
use ratto::template::{Bindings, Template};
use ratto::variables::{Tier, VarSource, VariableBlock};



#[test]
fn line_column_counts_from_one_over_bytes_not_chars() {
    assert_eq!(line_column("a\nbb\n", 0), (1, 1));
    assert_eq!(line_column("a\nbb\n", 2), (2, 1));
    assert_eq!(line_column("a\nbb\n", 4), (2, 3));
    // Multi-byte: 'é' is two bytes, one column. Offset 6 is the
    // space — the sixth CHAR — reached by walking BYTES. This is
    // the case that proves the convention (and that a mid-char
    // offset cannot panic the walk).
    assert_eq!(line_column("héllo x", 6), (1, 6));
    // A mid-char byte offset lands after the char it is inside,
    // and never panics: byte 2 is é's second byte, and é is
    // consumed whole, so the walk stops at column 3.
    assert_eq!(line_column("héllo x", 2), (1, 3));
    // CRLF: the \r is not a column.
    assert_eq!(line_column("ab\r\ncd", 4), (2, 1));
    // Past the end: clamp to one past the last content.
    assert_eq!(line_column("ab\n", 99), (2, 1));
}

#[test]
fn a_bare_key_on_defaults_teaches_the_property_spelling() {
    assert_eq!(
        container_err("defaults shell #true\npane \"a\" { command \"true\" height 3 }"),
        "defaults: `shell` is a key, not an id — write `shell=#true`"
    );
    assert_eq!(
        container_err("defaults interval \"5s\"\npane \"a\" { command \"true\" height 3 }"),
        "defaults: `interval` is a key, not an id — write `interval=\"5s\"`"
    );
    // A List key has no property spelling — the child-node
    // sentence, the same one the property path teaches.
    assert_eq!(
        container_err(
            "defaults command \"git\" \"log\"\npane \"a\" { command \"true\" height 3 }"
        ),
        "defaults: `command` holds a list, so it must be a child node — write `command \"git\" \"log\"` inside the block"
    );
    // gap is the dashboard's, not a pane key.
    assert_eq!(
        container_err("defaults gap 1\npane \"a\" { command \"true\" height 3 }"),
        "defaults: `gap` is the whole dashboard's, declared once at the top level as `gap 1`"
    );
}

#[test]
fn a_bare_key_after_a_pane_name_teaches_the_property_spelling() {
    assert_eq!(
        container_err("pane \"a\" shell #true { command \"true\" height 3 }"),
        "pane #1: `shell` is a key, not an id — write `shell=#true`"
    );
    // The breadcrumb survives nesting, and the spelling echoes the
    // author's own value.
    assert_eq!(
        container_err("row {\n    pane \"a\" height 3 { command \"true\" }\n}"),
        "row #1 > pane #1: `height` is a key, not an id — write `height=3`"
    );
    assert_eq!(
        container_err("pane \"a\" command \"git\" \"log\" { height 3 }"),
        "pane #1: `command` holds a list, so it must be a child node — write `command \"git\" \"log\"` inside the block"
    );
}

#[test]
fn an_echoed_value_that_does_not_fit_the_key_falls_back_to_the_example() {
    // A taught spelling must be WRITABLE. When the value after the
    // stray key does not fit the key's shape — here a second key
    // name where a boolean belongs — echoing it would teach
    // `shell="height"`, an error of its own. The table's example
    // is the fallback.
    assert_eq!(
        container_err("pane \"a\" shell height 3 { command \"true\" }"),
        "pane #1: `shell` is a key, not an id — write `shell=#true`"
    );
    // A string that names no other key DOES fit `shell` now, so
    // the author's own shell name is the taught spelling.
    assert_eq!(
        container_err("pane \"a\" shell fish { command \"true\" }"),
        "pane #1: `shell` is a key, not an id — write `shell=\"fish\"`"
    );
    assert_eq!(
        container_err("defaults height #true\npane \"a\" { command \"true\" height 3 }"),
        "defaults: `height` is a key, not an id — write `height=7`"
    );
    // The same rule for a document setting: `gap` takes an
    // integer, so a non-integer is never echoed into the example.
    assert_eq!(
        container_err("row gap #true { pane \"a\" height 3 { command \"true\" } }"),
        "row #1: `gap` is the whole dashboard's, declared once at the top level as `gap 1`"
    );
}

#[test]
fn a_bare_gap_on_a_container_names_the_dashboards_gap() {
    assert_eq!(
        container_err("row gap 1 { pane \"a\" height 3 { command \"true\" } }"),
        "row #1: `gap` is the whole dashboard's, declared once at the top level as `gap 1`"
    );
    // The other container, the other setting, the author's own
    // value — one template, every substitution pinned.
    assert_eq!(
        container_err("column row-gap 2 { pane \"a\" height 3 { command \"true\" } }"),
        "column #1: `row-gap` is the whole dashboard's, declared once at the top level as `row-gap 2`"
    );
}

#[test]
fn a_bare_pane_key_on_a_container_says_where_it_belongs() {
    assert_eq!(
        container_err("row shell #true { pane \"a\" height 3 { command \"true\" } }"),
        "row #1: `shell` is a pane's key — write it on a `pane` block inside this row"
    );
}

#[test]
fn a_colored_parse_paints_the_snippet_and_the_plain_one_does_not() {
    let bad = "pane \"log\" interval=5s {\n    command \"date\"\n}\n";
    let colored = format!("{:#}", parse_styled(bad, true).expect_err("still invalid"));
    let plain = format!("{:#}", parse_styled(bad, false).expect_err("still invalid"));
    assert!(colored.contains('\u{1b}'), "got {colored:?}");
    assert!(
        colored.starts_with("line 1, column "),
        "color never touches the greppable head: {colored:?}"
    );
    assert!(!plain.contains('\u{1b}'), "got {plain:?}");
    assert_eq!(
        plain,
        format!("{:#}", parse(bad).expect_err("still invalid")),
        "`parse` IS the plain spelling"
    );
}

#[test]
fn a_kdl_syntax_error_carries_its_line_and_column() {
    // The reported repro: a bare token in property position is
    // not a KDL value, and the answer must say where — AND show
    // the offending line itself, rustc-style. The snippet's exact
    // glyphs are miette's and stay unpinned; the SOURCE ECHO is
    // the contract.
    let err = parse("pane \"log\" interval=5s {\n    command \"date\"\n}\n")
        .expect_err("5s is not a valid KDL value");
    let text = format!("{err:#}");
    assert!(text.starts_with("line 1, column "), "got {text}");
    assert!(!text.contains("Failed to parse KDL document"), "got {text}");
    assert!(
        text.contains("pane \"log\" interval=5s {"),
        "the offending source line is echoed: {text}"
    );
}

#[test]
fn the_earliest_diagnostic_heads_and_every_diagnostic_gets_a_block() {
    // Two bad values on two lines: the first failure heads the
    // message, and each diagnostic renders its own snippet block
    // below — no counting, no hiding. The `[line:column]` span
    // marker is the loosest stable probe of miette's block
    // header; revisit if a miette bump reformats it.
    let err = parse("a 1.\nb 2.\n").expect_err("both floats are invalid");
    let text = format!("{err:#}");
    assert!(text.starts_with("line 1, column "), "got {text}");
    assert!(text.contains("[1:3]"), "the first block is placed: {text}");
    assert!(text.contains("[2:3]"), "the second block is placed: {text}");
}

#[test]
fn the_head_line_is_the_place_and_the_message() {
    // OUR frame is pinned whole; upstream's message text is a
    // plain value here, never byte-pinned at the route. Help and
    // the other diagnostics live in the snippet blocks now, so
    // the head is just the greppable place + message.
    assert_eq!(
        syntax_error_text(1, 20, Some("Expected valid value")),
        "line 1, column 20: Expected valid value"
    );
    assert_eq!(
        syntax_error_text(3, 1, Some("No closing '}' for child block")),
        "line 3, column 1: No closing '}' for child block"
    );
    assert_eq!(
        syntax_error_text(1, 1, None),
        "line 1, column 1: invalid KDL"
    );
}

const KDL_FIXTURE: &str = r#"
gap 1

defaults {
interval "5s"
border "rounded"
padding "0 1"
height 7
}

pane "clock" {
command "date +%H:%M:%S"
interval "60s"
trigger "file:./stamp" "file:./notes"
height 16
width "2fr"
}

row {
pane "branch" {
    command "git" "branch" "--show-current"
}
pane "notes" {
    command "rat style hello"
    interval "never"
}
}
"#;

#[test]
fn the_fixture_parses_to_the_declared_dashboard() {
    // The thinness proof, one-sided since the TOML grammar's
    // deletion: the parser emits exactly what the file declares —
    // word splitting, defaults, layout shape — with no rule of its
    // own. (Its two-grammar ancestor also asserted TOML equality;
    // that property lost its second side with the format pick.)
    let from_kdl = parse(KDL_FIXTURE).expect("kdl parses");
    assert_eq!(from_kdl.gap, Some(1));
    assert_eq!(from_kdl.panes.len(), 3);
    assert_eq!(
        from_kdl.panes[0].command,
        Some(vec![Template::extract("date"), Template::extract("+%H:%M:%S")])
    );
    assert_eq!(
        from_kdl.panes[1].command,
        Some(vec![Template::extract("git"), Template::extract("branch"), Template::extract("--show-current")])
    );
    assert_eq!(from_kdl.defaults.height, Some(7));
    
    assert_eq!(
        from_kdl.layout,
        Some(vec![
            LayoutDecl::Pane("clock".to_string()),
            LayoutDecl::Row(vec![
                LayoutDecl::Pane("branch".to_string()),
                LayoutDecl::Pane("notes".to_string()),
            ]),
        ])
    );
}

// ---------------------------------------------------------------
// The inline tree: a pane is declared inside the row or column that
// places it.
// ---------------------------------------------------------------

const INLINE_THREE_PANE: &str = r#"
gap 1

defaults {
interval "5s"
border "rounded"
padding "0 1"
height 7
}

row {
pane "log" {
    command "git" "log" "--oneline" "-3"
    interval "15s"
}
pane "branch" {
    command "git" "status" "--short" "--branch"
}
}

row {
pane "clock" {
    command "date" "+%H:%M:%S"
    interval "1s"
    height 4
}
}
"#;

const INLINE_NESTED: &str = r#"
gap 1

defaults {
interval "5s"
height 7
}

row {
column {
    pane "log" {
        command "git" "log" "--oneline" "-3"
        interval "15s"
    }
    pane "branch" {
        command "git" "status" "--short" "--branch"
    }
}
column {
    pane "clock" {
        command "date" "+%H:%M:%S"
        interval "1s"
        height 4
    }
}
}

pane "nested" {
command "rat" "dashboard" "examples/panes.kdl" "--once"
height 15
}
"#;

fn names_of(file: &DashboardFile) -> Vec<&str> {
    file.panes
        .iter()
        .map(|decl| decl.id.as_deref().expect("a named pane"))
        .collect()
}

/// `Registry` carries no `PartialEq` — it is compared the way the
/// loop reads it: one source and one box per id, and the tree.
fn assert_same_registry(left: &Registry, right: &Registry) {
    assert_eq!(left.len(), right.len());
    assert_eq!(left.composition(), right.composition());
    for id in left.ids() {
        assert_eq!(left.spec(id), right.spec(id));
        assert_eq!(left.pane(id), right.pane(id));
    }
}

#[test]
fn an_inline_pane_declares_where_it_sits() {
    let inline = parse(INLINE_THREE_PANE).expect("the inline spelling parses");
    // The lift is visibly a MOVE, not a resolution: a pane written
    // inside its row lands in the flat declaration list, its name
    // lands in the tree, and every token is still exactly what the
    // file wrote.
    assert_eq!(names_of(&inline), ["log", "branch", "clock"]);
    assert_eq!(
        inline.panes[0].command,
        Some(vec![
            Template::extract("git"),
            Template::extract("log"),
            Template::extract("--oneline"),
            Template::extract("-3"),
        ])
    );
    assert_eq!(
        inline.panes[0].interval.as_ref().map(Template::as_str),
        Some("15s")
    );
    assert_eq!(inline.panes[2].height, Some(4));
    assert_eq!(inline.defaults.height, Some(7));
    assert_eq!(inline.gap, Some(1));
    assert_eq!(
        inline.layout,
        Some(vec![
            LayoutDecl::Row(vec![
                LayoutDecl::Pane("log".to_string()),
                LayoutDecl::Pane("branch".to_string()),
            ]),
            // The one-cell row collapses to its cell.
            LayoutDecl::Pane("clock".to_string()),
        ])
    );
}

#[test]
fn the_inline_tree_nests_to_the_same_depth() {
    let inline = parse(INLINE_NESTED).expect("the inline spelling parses");
    // Document order is declaration order is `SourceId` order: the
    // walk is depth-first, so a pane's id is its reading position —
    // and the last pane here is a top-level one, after two levels of
    // nesting (D-2).
    assert_eq!(names_of(&inline), ["log", "branch", "clock", "nested"]);
    assert_eq!(inline.panes[3].height, Some(15));
    assert_eq!(
        inline.layout,
        Some(vec![
            LayoutDecl::Row(vec![
                LayoutDecl::Column(vec![
                    LayoutDecl::Pane("log".to_string()),
                    LayoutDecl::Pane("branch".to_string()),
                ]),
                LayoutDecl::Pane("clock".to_string()),
            ]),
            LayoutDecl::Pane("nested".to_string()),
        ])
    );
}

#[test]
fn a_top_level_pane_is_a_cell_in_the_dashboards_column() {
    // D-2: a pane needs no container to be placed. The top level IS
    // the dashboard's column, so a top-level pane is a full-width
    // cell in it — which is why a layout-less file stays a legal
    // file and the minimal dashboard stays one node.
    let file = parse(
        "pane \"a\" {\n    height 3\n    command \"date\"\n}\npane \"b\" {\n    height 3\n    command \"date\"\n}\npane \"c\" {\n    height 3\n    command \"date\"\n}\n",
    )
    .expect("flat panes parse");
    assert_eq!(
        file.layout,
        Some(vec![
            LayoutDecl::Pane("a".to_string()),
            LayoutDecl::Pane("b".to_string()),
            LayoutDecl::Pane("c".to_string()),
        ])
    );

    // …and that stated column is exactly what an ABSENT layout has
    // always resolved to, so nothing about those files changed.
    let implicit = DashboardFile {
        layout: None,
        ..file.clone()
    };
    assert_same_registry(
        &file.into_registry(&Bindings::new()).expect("the stated column validates"),
        &implicit
            .into_registry(&Bindings::new())
            .expect("the implicit column validates"),
    );
}

/// A cell that is not a cell is located by tree position, because
/// position is all a container knows about it — and often all the
/// pane has, since it may not have named itself yet. These assert
/// the WHOLE message: a teaching error that drifts a clause stops
/// teaching, and there is no second copy of the text to compare to.
fn container_err(text: &str) -> String {
    format!("{:#}", parse(text).unwrap_err())
}

#[test]
fn an_inline_pane_needs_a_name_and_the_error_names_its_cell() {
    assert_eq!(
        container_err(
            "row {\n    pane \"log\" {\n        command \"date\"\n    }\n    pane {\n        command \"date\"\n    }\n}\n"
        ),
        "row #1 > pane #2: this pane needs an id — write `pane \"log\" { … }`"
    );
}

#[test]
fn a_pane_takes_one_id() {
    assert_eq!(
        container_err("row {\n    pane \"a\" \"b\" {\n        command \"date\"\n    }\n}\n"),
        "row #1 > pane #1: a pane takes ONE id, but \"b\" follows \"a\""
    );
    assert_eq!(
        container_err("row {\n    pane 3 {\n        command \"date\"\n    }\n}\n"),
        "row #1 > pane #1: a pane's id is a string — write `pane \"log\" { … }`"
    );
}

/// With the flat list gone a bare name refers to nothing, so the
/// error is a migration teacher: it shows the one spelling (D-3).
#[test]
fn a_row_holds_pane_blocks_not_pane_names() {
    assert_eq!(
        container_err("row \"log\"\n"),
        "row #1: a row holds `pane` blocks, not pane ids — declare the pane where it sits, like `row { pane \"log\" { … } }`"
    );
}

#[test]
fn an_empty_container_says_to_put_a_pane_in_it() {
    assert_eq!(
        container_err("row {\n}\n"),
        "row #1: this row is empty — put at least one pane in it"
    );
    assert_eq!(
        container_err(
            "row {\n    pane \"a\" {\n        command \"date\"\n    }\n    column {\n    }\n}\n"
        ),
        "row #1 > column #2: this column is empty — put at least one pane in it"
    );
}

/// D-5: a per-row gap is a real future request, so `row gap=2` gets
/// its own answer rather than a generic refusal — the feature stays
/// an open decision instead of becoming a shipped lie.
#[test]
fn a_row_takes_no_properties() {
    assert_eq!(
        container_err(
            "row style=\"x\" {\n    pane \"a\" {\n        command \"date\"\n    }\n}\n"
        ),
        "row #1: a row takes no properties, but \"style\" is set — a row holds only `pane`, `row`, and `column` blocks"
    );
    assert_eq!(
        container_err("row gap=2 {\n    pane \"a\" {\n        command \"date\"\n    }\n}\n"),
        "row #1: a row takes no properties — `gap` is the whole dashboard's, declared once at the top level as `gap 1`"
    );
}

#[test]
fn an_unknown_node_in_a_row_names_the_three_it_holds() {
    assert_eq!(
        container_err("row {\n    panel {\n        command \"date\"\n    }\n}\n"),
        "row #1 > panel #1: unknown node \"panel\" — a row holds `pane`, `row`, and `column` blocks"
    );
}

/// The deleted spelling teaches (I-57). A `layout` block was the
/// whole of the old grammar's placement, so meeting one is not an
/// unknown-token complaint — it is a reader who knows the old
/// spelling, and the error owes them the new one.
#[test]
fn a_layout_block_says_there_is_none() {
    assert_eq!(
        container_err(
            "pane \"log\" {\n    command \"date\"\n}\nlayout {\n    row \"log\"\n}\n"
        ),
        "there is no `layout` block — a pane is declared inside the row or column that places it: write `row { pane \"log\" { … } pane \"branch\" { … } }`"
    );
}

#[test]
fn an_unknown_top_level_node_names_the_eight() {
    assert_eq!(
        container_err("panes {\n    pane \"log\" {\n        command \"date\"\n    }\n}\n"),
        "unknown node \"panes\" — a dashboard's top level takes title, gap, row-gap, variables, defaults, pane, row, or column"
    );
}

/// D-1: `defaults` has no position in the geometry, so it lives at
/// the top level beside the tree — inside a container it is just an
/// unknown node.
#[test]
fn a_defaults_block_belongs_at_the_top_level() {
    assert_eq!(
        container_err("row {\n    defaults {\n        height 3\n    }\n}\n"),
        "row #1 > defaults #1: unknown node \"defaults\" — a row holds `pane`, `row`, and `column` blocks"
    );
}

#[test]
fn a_single_cell_row_collapses_to_its_pane() {
    // Every top-level item is normalized, or a one-cell row would
    // declare a different tree than the pane it holds and every
    // equality above would fail.
    let file = parse("row {\n    pane \"clock\" {\n        command \"date\"\n    }\n}\n")
        .expect("a one-cell row parses");
    assert_eq!(
        file.layout,
        Some(vec![LayoutDecl::Pane("clock".to_string())])
    );
}

/// One table, thirteen keys: every key a pane accepts must land on
/// the declaration through it. A key the table forgets shows up
/// here as a `None` field, not as a silently ignored node.
#[test]
fn every_pane_key_reaches_the_declaration_through_one_table() {
    let file = parse(
        r#"
pane "all" {
command "git" "log"
shell #false
interval "5s"
trigger "file:./stamp" "file:./notes"
trigger-debounce "250ms"
height 7
width "2fr"
overflow "keep-bottom"
border "rounded"
padding "0 1"
title "Recent commits"
chrome #false
focusable #false
}
"#,
    )
    .expect("parses");
    let pane = &file.panes[0];
    assert_eq!(pane.id.as_deref(), Some("all"));
    assert_eq!(pane.command, Some(vec![Template::extract("git"), Template::extract("log")]));
    assert_eq!(pane.shell, Some(ShellDecl::Direct));
    assert_eq!(pane.interval.as_ref().map(Template::as_str), Some("5s"));
    assert_eq!(
        pane.trigger,
        Some(vec![Template::extract("file:./stamp"), Template::extract("file:./notes")])
    );
    assert_eq!(
        pane.trigger_debounce.as_ref().map(Template::as_str),
        Some("250ms")
    );
    assert_eq!(pane.height, Some(7));
    assert_eq!(pane.width.as_ref().map(Template::as_str), Some("2fr"));
    assert_eq!(
        pane.overflow.as_ref().map(Template::as_str),
        Some("keep-bottom")
    );
    assert_eq!(pane.border.as_ref().map(Template::as_str), Some("rounded"));
    assert_eq!(pane.padding.as_ref().map(Template::as_str), Some("0 1"));
    assert_eq!(
        pane.title.as_ref().map(Template::as_str),
        Some("Recent commits")
    );
    assert_eq!(pane.chrome, Some(false));
    assert_eq!(pane.focusable, Some(false));
}

#[test]
fn the_script_key_reaches_the_declaration_through_the_table() {
    // Parse-level only: `script` beside `command` is a VALIDATION
    // refusal (into_registry), not a grammar one — the walk reads
    // both.
    let file = parse("pane \"log\" {\n    script \"#!/bin/sh\"\n}\n").expect("parses");
    assert_eq!(
        file.panes[0].script.as_ref().map(Template::as_str),
        Some("#!/bin/sh")
    );
}

#[test]
fn a_multi_line_script_body_reaches_the_declaration_dedented() {
    // The measured kdl fact: the closing line's indentation is
    // removed from every line — which is why the docs must teach
    // "align the closing quotes with the script".
    let file = parse(
        "\npane \"log\" {\n    script \"\"\"\n        #!/usr/bin/env fish\n        echo hi\n        \"\"\"\n}\n",
    )
    .expect("parses");
    assert_eq!(
        file.panes[0].script.as_ref().map(Template::as_str),
        Some("#!/usr/bin/env fish\necho hi")
    );
}

#[test]
fn a_script_body_may_be_written_as_a_property() {
    let file = parse(r##"pane "log" script="#!/bin/sh\necho hi""##).expect("parses");
    assert_eq!(
        file.panes[0].script.as_ref().map(Template::as_str),
        Some("#!/bin/sh\necho hi")
    );
}

#[test]
fn a_raw_script_body_keeps_its_backslashes() {
    // #"""…"""# is the form for sed/awk/regex-heavy bodies.
    let file = parse(
        "pane \"log\" {\n    script #\"\"\"\n        #!/bin/sh\n        printf '%s\\n' hi\n        \"\"\"#\n}\n",
    )
    .expect("parses");
    let body = file.panes[0]
        .script
        .as_ref()
        .map(Template::as_str)
        .expect("script");
    assert!(body.contains("%s\\n"), "{body:?}");
}

#[test]
fn a_script_key_takes_exactly_one_string() {
    let err = parse("pane \"a\" {\n    script \"x\" \"y\"\n}\n").unwrap_err();
    let text = format!("{err:#}");
    assert!(
        text.contains("script") && text.contains("one string"),
        "{text}"
    );
}

/// I-52 at the pane's keys: a value of the wrong shape, or too many
/// of them, is refused rather than half-read.
#[test]
fn a_pane_key_takes_exactly_the_values_its_shape_allows() {
    for (text, wanted) in [
        (
            "pane \"log\" {\n    command \"date\"\n    interval \"5s\" \"10s\"\n}\n",
            "one string",
        ),
        (
            "pane \"log\" {\n    command \"date\"\n    height \"7\"\n}\n",
            "one integer",
        ),
        (
            "pane \"log\" {\n    command \"date\"\n    chrome \"yes\"\n}\n",
            "#true or #false",
        ),
        (
            "pane \"log\" {\n    command \"date\"\n    shell 3\n}\n",
            "#true, #false, or one string",
        ),
        ("pane \"log\" {\n    command\n}\n", "one or more strings"),
    ] {
        let err = format!("{:#}", parse(text).unwrap_err());
        assert!(err.contains(wanted), "wanted {wanted:?} in {err}");
    }
}

#[test]
fn an_id_sticks_to_unreserved_characters() {
    // RFC 3986 unreserved, one or more: every id is literally a
    // valid URI fragment, so reference syntax never needs
    // percent-encoding. Display text belongs in `title`.
    for bad in ["repo status", "a#b", "a/b", "caf\u{e9}", "a%b", ""] {
        let text = format!("pane {bad:?} {{\n    height 3\n    command \"date\"\n}}\n");
        let err = format!("{:#}", parse(&text).unwrap_err());
        assert!(err.contains("letters, digits"), "for {bad:?}: {err}");
    }
    for good in ["a", "A-1", "a.b", "under_score", "til~de", "0"] {
        let text = format!("pane {good:?} {{\n    height 3\n    command \"date\"\n}}\n");
        parse(&text).unwrap_or_else(|e| panic!("{good:?} should parse: {e:#}"));
    }
}

#[test]
fn a_title_ref_parses_with_and_without_fallback_text() {
    let file = parse(
        "title ref=\"#header\"\npane \"header\" {\n    height 3\n    command \"date\"\n}\n",
    )
    .expect("parses");
    let title = file.title.expect("declared");
    assert_eq!(title.text, None);
    assert_eq!(title.reference.as_deref(), Some("header"));
    let file = parse(
        "title \"Fallback\" ref=\"#header\"\npane \"header\" {\n    height 3\n    command \"date\"\n}\n",
    )
    .expect("parses");
    let title = file.title.expect("declared");
    assert_eq!(title.text.as_ref().map(Template::as_str), Some("Fallback"));
    assert_eq!(title.reference.as_deref(), Some("header"));
}

#[test]
fn a_title_ref_keeps_the_value_space_reserved() {
    // A bare string is refused so every non-fragment spelling
    // stays open for URI-references later; the empty fragment is
    // the whole document and is refused too.
    for (text, wanted) in [
        ("title ref=\"header\"\n", "write `ref=\"#header\"`"),
        ("title ref=\"#\"\n", "name a pane id"),
        ("title ref=3\n", "one string"),
        ("title bogus=\"x\"\n", "`ref`"),
        ("title\n", "a text, a ref"),
    ] {
        let err = format!("{:#}", parse(text).unwrap_err());
        assert!(err.contains(wanted), "wanted {wanted:?} in {err}");
    }
}

#[test]
fn a_dashboard_title_parses_and_both_meanings_coexist() {
    // The same word at two positions carries two meanings: the
    // top-level `title` names the whole dashboard, a pane's
    // `title` labels its own border. Both survive one file.
    let file = parse(
        "title \"Deploy status\"\npane \"build\" {\n    height 3\n    command \"date\"\n    title \"Build log\"\n}\n",
    )
    .expect("parses");
    let declared = file.title.expect("declared");
    assert_eq!(
        declared.text.as_ref().map(Template::as_str),
        Some("Deploy status")
    );
    assert_eq!(declared.reference, None);
    assert_eq!(
        file.panes[0].title.as_ref().map(Template::as_str),
        Some("Build log")
    );
    // Undeclared stays absent — the row is not rendered from an
    // empty string.
    let bare = parse("pane \"a\" {\n    height 3\n    command \"date\"\n}\n").expect("parses");
    assert_eq!(bare.title, None);
}

#[test]
fn the_dashboard_title_reaches_the_composition() {
    let registry =
        parse("title \"Deploy status\"\npane \"a\" {\n    height 3\n    command \"date\"\n}\n")
            .expect("parses")
            .into_registry(&Bindings::new())
            .expect("validates");
    let Composition::Panes { title, .. } = registry.composition() else {
        panic!("a dashboard registry composes panes");
    };
    assert_eq!(
        *title,
        ratto::registry::TitleSource::Static("Deploy status".to_string())
    );
    let registry = parse("pane \"a\" {\n    height 3\n    command \"date\"\n}\n")
        .expect("parses")
        .into_registry(&Bindings::new())
        .expect("validates");
    let Composition::Panes { title, .. } = registry.composition() else {
        panic!("a dashboard registry composes panes");
    };
    assert_eq!(*title, ratto::registry::TitleSource::NoTitle);
}

#[test]
fn a_title_ref_binds_the_first_declaration_and_an_unknown_ref_teaches() {
    // First-win, the same rule duplicates follow everywhere.
    let registry = parse(
        "title ref=\"#x\"\npane \"x\" {\n    height 3\n    command \"date\"\n}\npane \"x\" {\n    height 3\n    command \"uptime\"\n}\n",
    )
    .expect("parses")
    .into_registry(&Bindings::new())
    .expect("validates");
    let Composition::Panes { title, .. } = registry.composition() else {
        panic!("panes")
    };
    assert_eq!(
        *title,
        TitleSource::Pane {
            source: SourceId(0),
            fallback: None
        }
    );
    // An id nothing declares is a load error that lists what exists.
    let err = format!(
        "{:#}",
        parse("title ref=\"#nope\"\npane \"a\" {\n    height 3\n    command \"date\"\n}\n")
            .expect("parses")
            .into_registry(&Bindings::new())
            .unwrap_err()
    );
    assert!(err.contains("names no pane"), "{err}");
    assert!(err.contains("declared ids are a"), "{err}");
}

#[test]
fn title_takes_one_string_and_nothing_else() {
    for (text, wanted) in [
        ("title x=\"y\"\n", "`ref`"),
        ("title \"a\" \"b\"\n", "one string"),
        ("title 3\n", "one string"),
        ("title \"a\" {\n}\n", "holds no block"),
        ("(u8)title \"a\"\n", "type annotation"),
        ("title (u8)\"a\"\n", "type annotation"),
    ] {
        let err = format!("{:#}", parse(text).unwrap_err());
        assert!(err.contains(wanted), "wanted {wanted:?} in {err}");
    }
}

#[test]
fn gap_takes_one_integer_and_nothing_else() {
    for (text, wanted) in [
        ("gap x=1\n", "no properties"),
        ("gap 1 2\n", "one integer"),
        ("gap \"1\"\n", "one integer"),
        ("gap -1\n", "non-negative"),
    ] {
        let err = format!("{:#}", parse(text).unwrap_err());
        assert!(err.contains(wanted), "wanted {wanted:?} in {err}");
    }
}

#[test]
fn defaults_takes_no_id() {
    let err = format!(
        "{:#}",
        parse("defaults \"x\" {\n    height 3\n}\n").unwrap_err()
    );
    assert!(err.contains("no id"), "{err}");
}

/// The top-level pane name was read with a first-one-wins helper, so
/// a second name or a non-string was silently dropped.
#[test]
fn a_top_level_pane_takes_exactly_one_string_name() {
    for (text, wanted) in [
        ("pane \"a\" \"b\" {\n    height 3\n}\n", "ONE id"),
        ("pane 3 {\n    height 3\n}\n", "is a string"),
        ("(u8)pane \"a\" {\n    height 3\n}\n", "type annotation"),
    ] {
        let err = format!("{:#}", parse(text).unwrap_err());
        assert!(err.contains(wanted), "wanted {wanted:?} in {err}");
    }
}

/// I-52 reaches the key node itself, not just the block holding it.
/// A key node carries its value and nothing else — a property, a
/// block, or an annotation hung on it is a token with nowhere to go.
#[test]
fn a_key_node_carries_its_value_and_nothing_else() {
    for (tail, wanted) in [
        (
            "interval \"5s\" bogus=\"x\"",
            "pane \"log\": `interval` takes one string, but \"bogus\" is set — write `interval \"5s\"`",
        ),
        (
            "interval \"5s\" { junk \"x\" }",
            "pane \"log\": `interval` takes one string and holds no block — write `interval \"5s\"`",
        ),
        // An EMPTY block is still a block the author wrote. The
        // message says the key holds none, so accepting `{}` would
        // make the parser contradict its own error.
        (
            "interval \"5s\" {}",
            "pane \"log\": `interval` takes one string and holds no block — write `interval \"5s\"`",
        ),
        (
            "(u8)interval \"5s\"",
            "pane \"log\": the (u8) type annotation on `interval` has no meaning here — remove it",
        ),
        (
            "interval (string)\"5s\"",
            "pane \"log\": the (string) type annotation on `interval` has no meaning here — remove it",
        ),
    ] {
        assert_eq!(
            container_err(&format!(
                "pane \"log\" {{\n    height 3\n    {tail}\n    command \"date\"\n}}\n"
            )),
            wanted
        );
    }
}

/// D-7 has no exceptions: an annotation means nothing to this
/// grammar on ANY node, and a container or a name is a node like the
/// rest. The key nodes were covered first and these were not, which
/// is the same hole in a different position.
#[test]
fn an_annotation_is_refused_on_a_container_or_a_name() {
    for (text, wanted) in [
        (
            "(u8)row {\n    pane \"a\" { height 3; command \"date\" }\n}\n",
            "row #1: the (u8) type annotation on `row` has no meaning here — remove it",
        ),
        (
            "row {\n    (u8)column { pane \"a\" { height 3; command \"date\" } }\n}\n",
            "row #1 > column #1: the (u8) type annotation on `column` has no meaning here — remove it",
        ),
        (
            "(u8)defaults { height 3 }\npane \"a\" { command \"date\" }\n",
            "defaults: the (u8) type annotation on `defaults` has no meaning here — remove it",
        ),
        (
            "pane (name)\"x\" {\n    height 3\n    command \"date\"\n}\n",
            "pane #1: the (name) type annotation on a pane has no meaning here — remove it",
        ),
        (
            "row {\n    pane (name)\"x\" { height 3; command \"date\" }\n}\n",
            "row #1 > pane #1: the (name) type annotation on a pane has no meaning here — remove it",
        ),
    ] {
        assert_eq!(container_err(text), wanted);
    }
}

/// A document setting is a key too: `gap` holds one integer, so a
/// block or an annotation on it reaches nothing.
#[test]
fn a_document_setting_carries_its_value_and_nothing_else() {
    for block in ["{ junk \"x\" }", "{}"] {
        assert_eq!(
            container_err(&format!(
                "gap 1 {block}\npane \"a\" {{ height 3; command \"date\" }}\n"
            )),
            "gap takes one integer and holds no block — write `gap 1`"
        );
    }
    assert_eq!(
        container_err("(u8)gap 1\npane \"a\" { height 3; command \"date\" }\n"),
        "the (u8) type annotation on `gap` has no meaning here — remove it"
    );
}

/// I-55 at the document level: last-wins is as invisible here as it
/// is inside a pane block, and a second `defaults` silently
/// replacing the first is the same silent discard in a new place.
#[test]
fn a_document_setting_is_declared_once() {
    for (text, wanted) in [
        (
            "gap 1\ngap 5\npane \"a\" { height 3; command \"date\" }\n",
            "`gap` is declared twice — a dashboard declares it once",
        ),
        (
            "row-gap 1\nrow-gap 5\npane \"a\" { height 3; command \"date\" }\n",
            "`row-gap` is declared twice — a dashboard declares it once",
        ),
        (
            "defaults { height 3 }\ndefaults { height 9 }\npane \"a\" { command \"date\" }\n",
            "`defaults` is declared twice — a dashboard declares it once",
        ),
        (
            "title \"a\"\ntitle \"b\"\npane \"a\" { height 3; command \"date\" }\n",
            "`title` is declared twice — a dashboard declares it once",
        ),
    ] {
        assert_eq!(container_err(text), wanted);
    }
}

/// Slashdash is the kdl crate's job, and it does it before the walk
/// reaches us — commenting a key out must keep working.
#[test]
fn a_commented_out_key_is_not_a_declaration() {
    let file = parse(
        "pane \"log\" /-interval=\"15s\" {\n    command \"date\"\n    /-command \"old\"\n}\n",
    )
    .expect("parses");
    assert_eq!(file.panes[0].interval, None);
    assert_eq!(file.panes[0].command, Some(vec![Template::extract("date")]));
}

/// The boundary the "holds no block" rule must not cross: a block
/// the author COMMENTED OUT was not written, so refusing it would
/// punish the ordinary way of temporarily removing something.
#[test]
fn a_commented_out_block_is_not_a_block() {
    let file = parse(
        "pane \"log\" {\n    height 3\n    interval \"5s\" /-{ junk \"x\" }\n    command \"date\"\n}\n",
    )
    .expect("a slashdashed block is not a block");
    assert_eq!(
        file.panes[0].interval.as_ref().map(Template::as_str),
        Some("5s")
    );
}

#[test]
fn a_kdl_type_annotation_is_refused() {
    let err = format!(
        "{:#}",
        parse("pane \"log\" height=(i64)7 {\n    command \"date\"\n}\n").unwrap_err()
    );
    assert!(err.contains("type annotation"), "{err}");
    assert!(err.contains("(i64)"), "{err}");
}

/// The C equivalence proof: a scalar key means the same thing on
/// the block's own line as inside it. Author's choice, uniformly.
#[test]
fn a_scalar_key_may_be_written_as_a_property_or_a_child_node() {
    let as_properties = parse(
        r#"
pane "log" interval="15s" height=7 width="2fr" chrome=#false focusable=#false {
command "git" "log"
}
"#,
    )
    .expect("properties parse");
    let as_children = parse(
        r#"
pane "log" {
interval "15s"
height 7
width "2fr"
chrome #false
focusable #false
command "git" "log"
}
"#,
    )
    .expect("children parse");
    assert_eq!(as_properties, as_children);
    assert_eq!(
        as_properties.panes[0]
            .interval
            .as_ref()
            .map(Template::as_str),
        Some("15s")
    );
    assert_eq!(as_properties.panes[0].height, Some(7));
}

#[test]
fn defaults_collapses_to_one_line_of_properties() {
    let one_line =
        parse("defaults interval=\"5s\" border=\"rounded\" padding=\"0 1\" height=7\n")
            .expect("parses");
    let block = parse(
        "defaults {\n    interval \"5s\"\n    border \"rounded\"\n    padding \"0 1\"\n    height 7\n}\n",
    )
    .expect("parses");
    assert_eq!(one_line, block);
    assert_eq!(
        one_line.defaults.border.as_ref().map(Template::as_str),
        Some("rounded")
    );
}

/// A KDL property holds exactly one value, so the two list keys
/// have no property spelling — and the error says where they go.
#[test]
fn a_list_key_as_a_property_says_where_it_belongs() {
    for text in [
        "pane \"log\" command=\"git log\" {\n    height 3\n}\n",
        "pane \"log\" trigger=\"file:./x\" {\n    command \"date\"\n}\n",
    ] {
        let err = format!("{:#}", parse(text).unwrap_err());
        assert!(err.contains("holds a list"), "{err}");
        assert!(err.contains("child node"), "{err}");
        assert!(err.contains("inside the block"), "{err}");
    }
}

#[test]
fn an_unknown_property_names_the_keys_that_may_be_properties() {
    let err = format!(
        "{:#}",
        parse("pane \"log\" intervl=\"15s\" {\n    command \"date\"\n}\n").unwrap_err()
    );
    assert!(err.contains("unknown property"), "{err}");
    assert!(err.contains("intervl"), "{err}");
    assert!(err.contains("interval"), "{err}");
    assert!(
        !err.contains("command"),
        "a list key has no property spelling, so it must not be offered: {err}"
    );
}

/// One key, one place, once — in any spelling combination. Last-wins
/// is invisible to a reader scanning a long pane block.
#[test]
fn a_key_declared_twice_on_one_pane_is_refused() {
    for text in [
        // twice as a property
        "pane \"log\" interval=\"15s\" interval=\"30s\" {\n    command \"date\"\n}\n",
        // twice as a child node
        "pane \"log\" {\n    command \"date\"\n    interval \"15s\"\n    interval \"30s\"\n}\n",
        // once each
        "pane \"log\" interval=\"15s\" {\n    command \"date\"\n    interval \"30s\"\n}\n",
    ] {
        let err = format!("{:#}", parse(text).unwrap_err());
        assert!(err.contains("declared twice"), "{err}");
        assert!(err.contains("interval"), "{err}");
    }
}

#[test]
fn a_property_carries_a_kdl_boolean_not_a_quoted_string() {
    let err = format!(
        "{:#}",
        parse("pane \"log\" chrome=\"false\" {\n    command \"date\"\n}\n").unwrap_err()
    );
    assert!(err.contains("#false"), "{err}");
    let ok = parse("pane \"log\" chrome=#false {\n    command \"date\"\n}\n").expect("parses");
    assert_eq!(ok.panes[0].chrome, Some(false));
}

/// `shell` is read before the pass that assigns it, because the
/// command split depends on it — and the property spelling must
/// reach that read, not just the field.
#[test]
fn a_property_holds_the_same_shell_the_command_split_reads() {
    let file = parse("pane \"x\" shell=#true {\n    command \"date +%H | tr -d x\"\n}\n")
        .expect("parses");
    assert_eq!(file.panes[0].shell, Some(ShellDecl::Platform));
    assert_eq!(
        file.panes[0].command,
        Some(vec![Template::extract("date +%H | tr -d x")]),
        "one word under shell stays one word"
    );
    // The split follows runs_a_shell, never WHICH shell: a named
    // shell keeps its script one word exactly as #true does.
    let file = parse("pane \"x\" shell=\"fish\" {\n    command \"date +%H | tr -d x\"\n}\n")
        .expect("parses");
    assert_eq!(file.panes[0].shell, Some(ShellDecl::Named(Template::extract("fish"))));
    assert_eq!(
        file.panes[0].command,
        Some(vec![Template::extract("date +%H | tr -d x")]),
        "one word under a named shell stays one word"
    );
}

/// `#true` is the platform's shell, `#false` no shell at all, and a
/// string names the program — in both spellings, both positions.
#[test]
fn a_shell_key_names_the_shell_it_runs() {
    for (text, wanted) in [
        (
            "pane \"x\" shell=#true {\n    command \"date\"\n}\n",
            ShellDecl::Platform,
        ),
        (
            "pane \"x\" {\n    shell #true\n    command \"date\"\n}\n",
            ShellDecl::Platform,
        ),
        (
            "pane \"x\" shell=#false {\n    command \"date\"\n}\n",
            ShellDecl::Direct,
        ),
        (
            "pane \"x\" shell=\"fish\" {\n    command \"date\"\n}\n",
            ShellDecl::Named(Template::extract("fish")),
        ),
        (
            "pane \"x\" {\n    shell \"fish\"\n    command \"date\"\n}\n",
            ShellDecl::Named(Template::extract("fish")),
        ),
    ] {
        let file = parse(text).expect("parses");
        assert_eq!(file.panes[0].shell, Some(wanted.clone()), "{text}");
    }
    // An EMPTY string names nothing — a shape error naming the
    // accepted values, never a spawn of `""`.
    for text in [
        "pane \"x\" shell=\"\" {\n    command \"date\"\n}\n",
        "pane \"x\" shell=\"   \" {\n    command \"date\"\n}\n",
        "pane \"x\" {\n    shell \"\"\n    command \"date\"\n}\n",
    ] {
        let err = format!("{:#}", parse(text).unwrap_err());
        assert!(err.contains("#true, #false, or one string"), "{err}");
    }
}

/// The teaching error names the pane it happened in, the token the
/// user wrote, and the keys they meant — all three read off the one
/// table. Supersedes `an_unknown_kdl_node_names_the_accepted_set`,
/// which could not name the pane.
#[test]
fn an_unknown_pane_key_names_the_pane_and_the_keys() {
    let err = format!(
        "{:#}",
        parse("pane \"log\" {\n    comand \"date\"\n    height 3\n}\n").unwrap_err()
    );
    assert!(err.contains("log"), "names the pane: {err}");
    assert!(err.contains("comand"), "quotes what was written: {err}");
    assert!(err.contains("command"), "{err}");
    assert!(err.contains("interval"), "{err}");
}

// ─── The `variables` block ──────────────────────────────────────


fn vars(text: &str) -> VariableBlock {
    parse(text).expect("the board parses").variables
}

fn vars_err(text: &str) -> String {
    format!("{:#}", parse(text).expect_err("the board is refused"))
}

/// The smallest legal board to hang a `variables` block on.
const ONE_PANE: &str = "\npane \"a\" { command \"true\"\nheight 3 }\n";

#[test]
fn a_variables_block_declares_constants_and_commands() {
    let block = vars(&format!(
        r#"
variables {{
plan  "/tmp/plans/0028"
store "git rev-parse --git-common-dir" shell=#true
head  "git rev-parse --short HEAD" shell=#true defer=#true
fishy "status --porcelain" shell="fish"
}}
{ONE_PANE}"#
    ));
    assert_eq!(
        block.get("plan").map(|v| &v.source),
        Some(&VarSource::Constant)
    );
    assert_eq!(
        block.get("store").map(|v| v.source.clone()),
        Some(VarSource::LoadCommand(ShellDecl::Platform))
    );
    assert_eq!(
        block.get("head").map(|v| v.source.clone()),
        Some(VarSource::SpawnCommand(ShellDecl::Platform))
    );
    assert_eq!(
        block.get("fishy").map(|v| v.source.clone()),
        Some(VarSource::LoadCommand(ShellDecl::Named(Template::extract(
            "fish"
        ))))
    );
    // The text is the author's bytes, unexpanded — this walk never
    // expands (INV-2).
    assert_eq!(
        block.get("plan").map(|v| v.text.as_str()),
        Some("/tmp/plans/0028")
    );
    assert_eq!(block.declared_list(), "fishy, head, plan, store");
}

#[test]
fn a_board_with_no_variables_block_has_an_empty_map() {
    let block = vars(ONE_PANE);
    assert!(block.is_empty());
    assert_eq!(block.declared_list(), "");
}

#[test]
fn a_reference_resolves_regardless_of_where_it_is_written() {
    // The unordered-references regression test: `cur` is written
    // ABOVE the `sel` it
    // references, and above the `store` that `sel` needs. Under the
    // retired declaration-order rule this was an unknown-variable
    // error for a name visible three lines down.
    let block = vars(&format!(
        r#"
variables {{
cur   "{{{{sel}}}}.cursor"
sel   "{{{{store}}}}/pointbreak-review.sel"
store "/tmp/common"
}}
{ONE_PANE}"#
    ));
    let order: Vec<&str> = block.in_order().into_iter().map(|v| v.name.as_str()).collect();
    // Topological: every name appears after everything it references.
    assert_eq!(order, vec!["store", "sel", "cur"]);
    assert_eq!(
        block.get("cur").map(|v| v.text.refs()),
        Some(&["sel".to_string()][..])
    );
}

#[test]
fn a_self_reference_is_refused_and_names_the_cycle() {
    let err = vars_err(&format!(
        "variables {{\n    a \"{{{{a}}}}/x\"\n}}\n{ONE_PANE}"
    ));
    assert!(err.contains("variable cycle: `a` → `a`"), "got {err}");
    assert!(
        err.starts_with("line 2, column "),
        "the error is placed: {err}"
    );
}

#[test]
fn a_two_hop_cycle_is_refused_with_the_whole_path() {
    let err = vars_err(&format!(
        "variables {{\n    a \"{{{{b}}}}\"\n    b \"{{{{a}}}}\"\n}}\n{ONE_PANE}"
    ));
    assert!(err.contains("variable cycle: `a` → `b` → `a`"), "got {err}");
}

#[test]
fn a_three_hop_cycle_renders_every_hop() {
    // Beyond the degenerate case: the path RENDERER is what is under
    // test, not the detector.
    let err = vars_err(&format!(
        "variables {{\n    a \"{{{{b}}}}\"\n    b \"{{{{c}}}}\"\n    c \"{{{{a}}}}\"\n}}\n{ONE_PANE}"
    ));
    assert!(
        err.contains("variable cycle: `a` → `b` → `c` → `a`"),
        "got {err}"
    );
}

#[test]
fn a_reference_to_an_undeclared_name_inside_the_block_is_refused() {
    let err = vars_err(&format!(
        "variables {{\n    a \"{{{{nope}}}}\"\n    b \"x\"\n}}\n{ONE_PANE}"
    ));
    assert!(err.contains("unknown variable `nope`"), "got {err}");
    assert!(err.contains("declared variables are a, b"), "got {err}");
}

#[test]
fn a_constant_that_references_a_command_is_promoted_within_the_load_tier() {
    // INV-3's own canonical example, and the repeated-derived-path
    // case variables exist for.
    // A literal reading of the tier ladder over DECLARED forms would
    // refuse this; over EFFECTIVE tiers it is legal, and `sel` simply
    // IS once-at-load, which is also the truth.
    let block = vars(&format!(
        r#"
variables {{
sel   "{{{{store}}}}/pointbreak-review.sel"
store "git rev-parse --git-common-dir" shell=#true
}}
{ONE_PANE}"#
    ));
    assert_eq!(block.tier("sel"), Some(Tier::Load));
    assert_eq!(block.tier("store"), Some(Tier::Load));
}

#[test]
fn every_load_to_load_pairing_is_accepted() {
    // INV-9's accepting rows, one board each: constant→constant,
    // once-at-load→once-at-load, deferred→deferred, deferred→
    // once-at-load, deferred→constant.
    for (body, name, tier) in [
        ("a \"x\"\n    b \"{{a}}\"", "b", Tier::Load),
        (
            "a \"echo x\" shell=#true\n    b \"echo {{a}}\" shell=#true",
            "b",
            Tier::Load,
        ),
        (
            "a \"echo x\" shell=#true defer=#true\n    b \"echo {{a}}\" shell=#true defer=#true",
            "b",
            Tier::Spawn,
        ),
        (
            "a \"echo x\" shell=#true\n    b \"echo {{a}}\" shell=#true defer=#true",
            "b",
            Tier::Spawn,
        ),
        (
            "a \"x\"\n    b \"echo {{a}}\" shell=#true defer=#true",
            "b",
            Tier::Spawn,
        ),
    ] {
        let block = vars(&format!("variables {{\n    {body}\n}}\n{ONE_PANE}"));
        assert_eq!(block.tier(name), Some(tier), "{body}");
    }
}

#[test]
fn a_load_time_variable_referencing_a_deferred_one_is_refused_in_either_order() {
    // A TIER violation, not a position rule: it holds regardless of
    // where the two are written, which is the property INV-3's
    // unordered references made testable.
    for body in [
        "sel  \"{{head}}/x\"\n    head \"git rev-parse --short HEAD\" shell=#true defer=#true",
        "head \"git rev-parse --short HEAD\" shell=#true defer=#true\n    sel  \"{{head}}/x\"",
    ] {
        let err = vars_err(&format!("variables {{\n    {body}\n}}\n{ONE_PANE}"));
        assert!(
            err.contains("`sel` is not deferred but references `head`, which is"),
            "names BOTH variables: {err}"
        );
        assert!(
            err.contains("add `defer=#true` to `sel`") && err.contains("drop it from `head`"),
            "teaches both fixes: {err}"
        );
    }
}

#[test]
fn an_effective_tier_never_outruns_its_declared_form() {
    // The pin INV-7's ONE-LEVEL site check rests on. Because
    // clause 2 refuses load-references-deferred, a variable's
    // effective tier always EQUALS its declared tier once the block
    // is accepted — so "is any DIRECTLY referenced name deferred?" is
    // a complete answer at a site, and no transitive walk is needed.
    // If someone ever relaxes clause 2 to auto-promotion, this is the
    // test that fails first.
    let block = vars(&format!(
        r#"
variables {{
k "x"
l "{{{{k}}}}"
m "echo {{{{l}}}}" shell=#true
n "echo {{{{m}}}}" shell=#true defer=#true
o "echo {{{{n}}}}" shell=#true defer=#true
}}
{ONE_PANE}"#
    ));
    for v in block.in_order() {
        assert_eq!(v.tier, v.source.declared_tier(), "{}", v.name);
    }
}

#[test]
fn a_templated_shell_name_is_a_dependency_like_any_other() {
    // A dialect name is a string an author writes, so it carries
    // references — and a variable cannot be derived until the shell
    // that runs it is known. It is therefore a graph EDGE, ordered
    // like any other, and it participates in tier analysis.
    let block = vars(&format!(
        r#"
variables {{
dialect "fish"
out     "status --porcelain" shell="{{{{dialect}}}}"
}}
{ONE_PANE}"#
    ));
    let order: Vec<&str> = block.in_order().into_iter().map(|v| v.name.as_str()).collect();
    assert_eq!(order, vec!["dialect", "out"]);
    assert_eq!(
        block.get("out").unwrap().refs(),
        vec!["dialect".to_string()]
    );

    // An unknown name in a shell is the ordinary INV-6 refusal…
    let err = vars_err(&format!(
        "variables {{\n    out \"x\" shell=\"{{{{nope}}}}\"\n}}\n{ONE_PANE}"
    ));
    assert!(err.contains("unknown variable `nope`"), "got {err}");

    // …a cycle through a shell is still a cycle…
    let err = vars_err(&format!(
        "variables {{\n    a \"x\" shell=\"{{{{b}}}}\"\n    b \"{{{{a}}}}\"\n}}\n{ONE_PANE}"
    ));
    assert!(err.contains("variable cycle: `a` → `b` → `a`"), "got {err}");

    // …and a shell naming a DEFERRED variable is INV-9 clause 2. This
    // is the route that slips past entirely if the graph reads only
    // `text.refs`.
    let err = vars_err(&format!(
        "variables {{\n    d \"echo fish\" shell=#true defer=#true\n    a \"x\" shell=\"{{{{d}}}}\"\n}}\n{ONE_PANE}"
    ));
    assert!(
        err.contains("`a` is not deferred but references `d`, which is"),
        "got {err}"
    );
}

#[test]
fn a_shell_declaration_keeps_its_switch_forms_and_refuses_a_nameless_one() {
    let block = vars(&format!(
        "variables {{\n    p \"echo x\" shell=#true\n    f \"echo x\" shell=\"fish\"\n}}\n{ONE_PANE}"
    ));
    assert_eq!(
        block.get("p").unwrap().source.shell(),
        Some(&ShellDecl::Platform)
    );
    assert_eq!(
        block.get("f").unwrap().source.shell(),
        Some(&ShellDecl::Named(Template::extract("fish")))
    );
    assert!(
        block
            .get("p")
            .unwrap()
            .source
            .shell()
            .unwrap()
            .refs()
            .is_empty()
    );
    // An empty name names nothing — never a spawn of `""`.
    let err = vars_err(&format!(
        "variables {{\n    a \"x\" shell=\"\"\n}}\n{ONE_PANE}"
    ));
    assert!(
        err.contains("`shell` takes #true or one string"),
        "got {err}"
    );
}

#[test]
fn a_duplicate_variable_name_is_refused() {
    let err = vars_err(&format!(
        "variables {{\n    plan \"a\"\n    plan \"b\"\n}}\n{ONE_PANE}"
    ));
    assert!(err.contains("`plan` is declared twice"), "got {err}");
}

#[test]
fn a_variables_block_refuses_the_shapes_that_mean_nothing() {
    for (body, needle) in [
        // A name that cannot be REFERENCED cannot be declared: same
        // identifier grammar as `{{name}}` (INV-1).
        (
            "variables {\n    \"2fast\" \"x\"\n}",
            "a variable's name starts with a letter or `_`",
        ),
        // One value, a string.
        ("variables {\n    a\n}", "`a` takes one string"),
        ("variables {\n    a \"x\" \"y\"\n}", "`a` takes one string"),
        ("variables {\n    a 7\n}", "`a` takes one string"),
        // A variable holds a value, never a block.
        ("variables {\n    a \"x\" { b \"y\" }\n}", "holds no block"),
        // The block itself.
        (
            "variables \"x\" {\n    a \"y\"\n}",
            "`variables` takes no id",
        ),
        ("variables {\n}", "the `variables` block is empty"),
        ("variables\n", "the `variables` block is empty"),
        // Properties: the accepted set, then each dead knob.
        (
            "variables {\n    a \"x\" frobnicate=#true\n}",
            "a variable's properties are shell, defer",
        ),
        (
            "variables {\n    a \"x\" defer=#true\n}",
            "`defer` re-derives a value, and `a` derives nothing",
        ),
        (
            "variables {\n    a \"echo x\" shell=#false\n}",
            "a variable with no shell is a constant",
        ),
    ] {
        let err = vars_err(&format!("{body}\n{ONE_PANE}"));
        assert!(err.contains(needle), "{body:?} → {err}");
    }
}

#[test]
fn a_default_property_names_the_override_that_replaced_it() {
    // INV-5, retired: `default` is an ordinary unknown property now,
    // and it carries the one-line hint that explains the deletion.
    let err = vars_err(&format!(
        "variables {{\n    limit \"50\" default=\"50\"\n}}\n{ONE_PANE}"
    ));
    assert!(
        err.contains("a variable's properties are shell, defer"),
        "got {err}"
    );
    assert!(
        err.contains("a constant is its own default") && err.contains("-v limit=200"),
        "the hint names the -v alternative: {err}"
    );
}

#[test]
fn the_variables_block_is_declared_once() {
    let err = vars_err(&format!(
        "variables {{\n    a \"x\"\n}}\nvariables {{\n    b \"y\"\n}}\n{ONE_PANE}"
    ));
    assert!(err.contains("`variables` is declared twice"), "got {err}");
}

// ─── Name validation at every string site ───────────────────────

#[test]
fn an_unknown_variable_refuses_the_board_and_points_at_the_reference() {
    let err = vars_err(
        "variables {\n    plan \"/tmp/x\"\n}\n\npane \"a\" {\n    command \"true\"\n    height 3\n    title \"plan {{plna}}\"\n}\n",
    );
    assert!(err.starts_with("line 8, column "), "placed: {err}");
    assert!(
        err.contains("unknown variable `plna`"),
        "names the variable: {err}"
    );
    assert!(
        err.contains("declared variables are plan"),
        "lists the declared set: {err}"
    );
    // The house's rustc-style echo, the same contract
    // `a_kdl_syntax_error_carries_its_line_and_column` pins.
    assert!(
        err.contains("title \"plan {{plna}}\""),
        "echoes the line: {err}"
    );
}

#[test]
fn a_board_with_no_variables_block_says_so_rather_than_listing_nothing() {
    let err = vars_err(
        "pane \"a\" {\n    command \"true\"\n    height 3\n    title \"{{plan}}\"\n}\n",
    );
    assert!(err.contains("unknown variable `plan`"), "got {err}");
    assert!(
        err.contains("this board declares no variables"),
        "got {err}"
    );
}

#[test]
fn the_column_points_inside_the_value_at_the_reference_itself() {
    // Not at the key, not at the line: at the `{{`. The property
    // spelling and the child-node spelling both.
    let err =
        vars_err("pane \"a\" title=\"ok {{nope}}\" {\n    command \"true\"\n    height 3\n}\n");
    assert!(err.starts_with("line 1, column 20: "), "got {err}");
    // `    border "x{{nope}}"` — four spaces, `border` (5-10), a
    // space, the opening quote at 12, `x` at 13, so the `{{` opens at
    // column 14. `line_column` counts columns from 1.
    let err = vars_err(
        "pane \"a\" {\n    command \"true\"\n    height 3\n    border \"x{{nope}}\"\n}\n",
    );
    assert!(err.starts_with("line 4, column 14: "), "got {err}");
}

#[test]
fn every_value_shape_route_records_and_validates() {
    // The three routes the schema's own design forces: a property
    // (`prop_text`), a child node (`one_text`), and a list
    // (`many_text` — the ONLY spelling `command` and `trigger` have).
    let file = parse(
        "variables {\n    p \"0028\"\n}\n\npane \"a\" title=\"t {{p}}\" {\n    command \"git\" \"log\" \"{{p}}\"\n    trigger \"file:{{p}}/stamp\"\n    interval \"5s\"\n    height 3\n}\n",
    )
    .expect("parses");
    let pane = &file.panes[0];
    assert_eq!(
        pane.title.as_ref().map(|t| t.refs()),
        Some(&["p".to_string()][..])
    );
    assert_eq!(
        pane.command.as_ref().unwrap()[2].refs(),
        vec!["p".to_string()]
    );
    assert_eq!(
        pane.trigger.as_ref().unwrap()[0].refs(),
        vec!["p".to_string()]
    );
    // And the walk NEVER expands (INV-2) — the bytes are the author's.
    assert_eq!(pane.title.as_ref().unwrap().as_str(), "t {{p}}");
    // A template-free value records nothing: the common case, and
    // the path spawn-time expansion short-circuits.
    assert!(pane.interval.as_ref().unwrap().refs().is_empty());

    for bad in [
        "pane \"a\" title=\"{{q}}\" { command \"true\"\nheight 3 }",
        "pane \"a\" { command \"true\"\nheight 3\ntitle \"{{q}}\" }",
        "pane \"a\" { command \"git\" \"{{q}}\"\nheight 3 }",
        "pane \"a\" { command \"true\"\nheight 3\ntrigger \"file:{{q}}\" }",
    ] {
        let err = vars_err(&format!("variables {{\n    p \"x\"\n}}\n{bad}\n"));
        assert!(err.contains("unknown variable `q`"), "{bad} → {err}");
    }
}

#[test]
fn a_declaration_position_route_validates_inside_defaults_too() {
    // INV-2 claims a `{{name}}` in `defaults` and one on a pane are
    // identical, because expansion happens after inheritance either
    // way. That identity is the claim under test — here on the
    // validation half.
    let err = vars_err(
        "variables {\n    p \"x\"\n}\n\ndefaults {\n    height 3\n    border \"{{q}}\"\n}\n\npane \"a\" { command \"true\" }\n",
    );
    assert!(err.contains("unknown variable `q`"), "got {err}");
    let file = parse(
        "variables {\n    p \"x\"\n}\n\ndefaults {\n    height 3\n    border \"{{p}}\"\n}\n\npane \"a\" { command \"true\" }\n",
    )
    .expect("parses");
    assert_eq!(
        file.defaults.border.as_ref().map(|t| t.refs()),
        Some(&["p".to_string()][..])
    );
}

#[test]
fn a_variables_block_written_below_its_first_reference_still_answers() {
    // Position carries no meaning anywhere in this format (INV-3).
    // The block is built before ANY string site is read, so a board
    // that declares its variables at the bottom behaves identically.
    parse("pane \"a\" {\n    command \"true\"\n    height 3\n    title \"{{p}}\"\n}\n\nvariables {\n    p \"x\"\n}\n")
        .expect("the block is found wherever it is written");
}

#[test]
fn a_shell_dialect_name_is_a_string_site_like_any_other() {
    let err = vars_err(
        "variables {\n    p \"fish\"\n}\n\npane \"a\" shell=\"{{q}}\" { command \"true\"\nheight 3 }\n",
    );
    assert!(err.contains("unknown variable `q`"), "got {err}");
    // A declared one is accepted, and the SPLIT is unaffected: any
    // non-empty string is `ShellDecl::Named`, and `runs_a_shell()` is
    // true for it whatever the name expands to later.
    let file = parse(
        "variables {\n    p \"fish\"\n}\n\npane \"a\" shell=\"{{p}}\" { command \"git log -3\"\nheight 3 }\n",
    )
    .expect("parses");
    assert_eq!(
        file.panes[0].command.as_ref().unwrap().len(),
        1,
        "one word under a shell"
    );
}

#[test]
fn the_dashboards_own_title_is_a_string_site_and_its_ref_is_not() {
    let err = vars_err(
        "variables {\n    p \"x\"\n}\ntitle \"board {{q}}\"\npane \"a\" { command \"true\"\nheight 3 }\n",
    );
    assert!(err.contains("unknown variable `q`"), "got {err}");
    // INV-3: a pane id is IDENTITY — the `RAT_PANE` value, the anchor
    // a `ref` binds to, a URI fragment. A computed one would make
    // `ref` unresolvable by reading the file, so a reference in a
    // `ref` is refused rather than expanded.
    let err = vars_err(
        "variables {\n    p \"a\"\n}\ntitle ref=\"#{{p}}\"\npane \"a\" { command \"true\"\nheight 3 }\n",
    );
    assert!(
        err.contains("a pane's id is not substitutable"),
        "got {err}"
    );
}

#[test]
fn a_pane_id_keeps_the_refusal_it_already_had() {
    // No new rule needed: the RFC 3986 charset check in `one_id`
    // already refuses `{` and `}`, and its message already sends
    // display text to `title`, which IS substitutable.
    let err = vars_err("pane \"{{p}}\" { command \"true\"\nheight 3 }\n");
    assert!(
        err.contains("a pane's id sticks to letters, digits"),
        "got {err}"
    );
}

#[test]
fn a_brace_run_that_is_no_reference_never_reaches_validation() {
    // The awk body that made `$name` unusable. It parses, records no
    // references, and keeps its bytes.
    let file = parse(
        "pane \"a\" {\n    command \"awk '{{print $1}}' f\"\n    shell #true\n    height 3\n}\n",
    )
    .expect("an awk body is not a template");
    assert!(file.panes[0].command.as_ref().unwrap()[0].refs().is_empty());
}

// ─── Raw strings never interpolate ──────────────────────────────

#[test]
fn a_raw_string_records_no_references_at_any_of_the_three_shapes() {
    // Routes 1-3: the property spelling, the child-node spelling, and
    // a list value. `p` IS declared, so a validation error cannot be
    // what keeps the braces — only raw-ness can.
    let file = parse(
        "variables {\n    p \"0028\"\n}\n\npane \"a\" title=#\"t {{p}}\"# {\n    border ##\"b {{p}}\"##\n    command \"git\" #\"log {{p}}\"#\n    height 3\n}\n",
    )
    .expect("parses");
    let pane = &file.panes[0];
    for t in [
        pane.title.as_ref().unwrap(),
        pane.border.as_ref().unwrap(),
        &pane.command.as_ref().unwrap()[1],
    ] {
        assert!(t.refs().is_empty(), "{:?} references nothing", t.as_str());
        assert!(!t.interpolates());
        // The braces survive: expansion is a no-op, whatever the map.
        let mut map = Bindings::new();
        map.insert("p".to_string(), "0028".to_string());
        assert_eq!(t.expand(&map).unwrap(), t.as_str());
    }
    assert_eq!(pane.title.as_ref().unwrap().as_str(), "t {{p}}");
}

#[test]
fn a_raw_multiline_script_body_is_literal_end_to_end() {
    // Route 4, and the case INV-1 calls out by name: boards reach for
    // raw strings precisely for regex and awk bodies.
    let file = parse(
        "variables {\n    p \"0028\"\n}\n\npane \"a\" {\n    shell #true\n    height 3\n    script #\"\"\"\nawk '{{print $1}}' {{p}}\n\"\"\"#\n}\n",
    )
    .expect("parses");
    let body = file.panes[0].script.as_ref().expect("a script body");
    assert!(body.refs().is_empty());
    assert!(
        body.as_str().contains("{{p}}"),
        "the braces survive: {:?}",
        body.as_str()
    );
}

#[test]
fn a_raw_string_is_legal_at_a_load_typed_site_even_holding_a_deferred_name() {
    // Route 5, and the INV-7 interaction: a raw string can NEVER be a
    // template, so it is trivially legal at every site including the
    // load-typed ones. This is the route that proves raw-ness is
    // decided BEFORE the site rule rather than after — the recorded
    // reference set is already empty, so the site check has nothing
    // to look at. The site-rule task re-asserts this once the rule
    // exists.
    let file = parse(
        "variables {\n    head \"git rev-parse HEAD\" shell=#true defer=#true\n}\n\npane \"a\" {\n    command \"true\"\n    height 3\n    trigger #\"file:{{head}}/stamp\"#\n    interval #\"{{head}}\"#\n}\n",
    )
    .expect("a raw string is not a template");
    assert!(file.panes[0].trigger.as_ref().unwrap()[0].refs().is_empty());
    assert!(file.panes[0].interval.as_ref().unwrap().refs().is_empty());
}

#[test]
fn a_normal_multiline_string_still_interpolates() {
    // The pair that proves the rule is FLAVOR, not line count: the
    // `"""…"""` form is a normal string and behaves like one.
    let file = parse(
        "variables {\n    p \"0028\"\n}\n\npane \"a\" {\n    shell #true\n    height 3\n    script \"\"\"\necho {{p}}\n\"\"\"\n}\n",
    )
    .expect("parses");
    assert_eq!(
        file.panes[0].script.as_ref().unwrap().refs(),
        vec!["p".to_string()]
    );
}

#[test]
fn a_raw_string_is_never_validated_and_so_never_refuses() {
    // The other half of raw-ness: an undeclared name inside a raw
    // string is not a name at all, so INV-6 has nothing to complain
    // about. The same bytes in a normal string refuse.
    parse("pane \"a\" {\n    command \"true\"\n    height 3\n    title #\"{{nope}}\"#\n}\n")
        .expect("a raw string references nothing");
    let err = vars_err(
        "pane \"a\" {\n    command \"true\"\n    height 3\n    title \"{{nope}}\"\n}\n",
    );
    assert!(err.contains("unknown variable `nope`"), "got {err}");
}

#[test]
fn a_raw_variable_value_is_literal_too() {
    let block = vars(&format!(
        "variables {{\n    a \"x\"\n    lit #\"{{{{a}}}}\"#\n}}\n{ONE_PANE}"
    ));
    assert!(block.get("lit").unwrap().text.refs().is_empty());
    // And therefore it is not a graph edge: `lit` depends on nothing.
    assert_eq!(block.tier("lit"), Some(Tier::Load));
}

#[test]
fn a_raw_values_words_stay_literal_across_the_command_split() {
    // INV-7's argv boundary rule meets INV-1: the split happens at
    // load on template text, and re-recording each word must not
    // invent a reference the whole value never had.
    let file = parse(
        "variables {\n    p \"x\"\n}\n\npane \"a\" {\n    command #\"git log {{p}}\"#\n    height 3\n}\n",
    )
    .expect("parses");
    let argv = file.panes[0].command.as_ref().unwrap();
    assert_eq!(argv.len(), 3);
    assert!(argv.iter().all(|w| w.refs().is_empty()));
    assert_eq!(argv[2].as_str(), "{{p}}");
}

#[test]
fn a_raw_shell_dialect_name_is_literal_at_both_callers() {
    // `shell_decl` is the THIRD site that builds a `Template` from an
    // entry, and it has two callers — a pane and a variable. Both must
    // pick by flavor, so both are pinned.
    //
    // The stake here is higher than at the other two sites: a dialect
    // name's references are dependency-graph EDGES (`Variable::refs`)
    // and tier-analysis participants. A raw name that wrongly
    // recorded a reference could refuse a board for a cycle or an
    // INV-9 tier violation that INV-1 says cannot exist.

    // Caller 1 — a pane.
    let file = parse(
        "variables {\n    sh \"fish\"\n}\n\npane \"a\" shell=#\"{{sh}}\"# {\n    command \"git log\"\n    height 3\n}\n",
    )
    .expect("a raw dialect name references nothing");
    match file.panes[0].shell.as_ref().expect("a shell") {
        ShellDecl::Named(t) => {
            assert!(t.refs().is_empty());
            assert!(!t.interpolates());
            assert_eq!(t.as_str(), "{{sh}}");
        }
        other => panic!("expected a named dialect, got {other:?}"),
    }

    // Caller 2 — a variable, where the graph consequence lives.
    let block = vars(&format!(
        "variables {{\n    sh \"fish\"\n    out \"status\" shell=#\"{{{{sh}}}}\"#\n}}\n{ONE_PANE}"
    ));
    let out = block.get("out").expect("declared");
    assert!(out.source.shell().expect("a shell").refs().is_empty());
    // No edge, so no ordering constraint and no tier participation.
    assert_eq!(out.refs(), Vec::<String>::new());

    // And the case that proves raw-ness is doing the work: the SAME
    // board with a normal string refuses, because `nope` is undeclared.
    let err = vars_err(&format!(
        "variables {{\n    out \"status\" shell=\"{{{{nope}}}}\"\n}}\n{ONE_PANE}"
    ));
    assert!(err.contains("unknown variable `nope`"), "got {err}");
    // …while the raw spelling of the same bytes loads.
    vars(&format!(
        "variables {{\n    out \"status\" shell=#\"{{{{nope}}}}\"#\n}}\n{ONE_PANE}"
    ));
}


#[test]
fn the_color_verdict_leaves_the_outcome_alone() {
    let good = "pane \"a\" {\n    command \"date\"\n    height 3\n}\n";
    assert!(parse_styled(good, true).is_ok());
    assert!(parse_styled(good, false).is_ok());
    let broken = "pane \"a\" {\n";
    assert!(parse_styled(broken, true).is_err());
    assert!(parse_styled(broken, false).is_err());
    let refused = "panes {}\n";
    assert_eq!(
        parse_styled(refused, true).unwrap_err(),
        parse_styled(refused, false).unwrap_err()
    );
}

#[test]
fn a_pane_needs_an_id_at_the_top_level_too() {
    let err = parse("pane {\n    command \"date\"\n}\n").unwrap_err();
    assert_eq!(err, "pane #1: this pane needs an id — write `pane \"log\" { … }`");
}

#[test]
fn of_two_cycles_the_first_declared_one_is_named() {
    let err = parse(
        "variables {\n    c \"{{d}}\"\n    d \"{{c}}\"\n    a \"{{b}}\"\n    b \"{{a}}\"\n}\npane \"a\" { command \"true\"\nheight 3 }\n",
    )
    .unwrap_err();
    assert!(err.starts_with("line 2, column 7: "), "got {err}");
    assert!(err.contains("variable cycle: `c` → `d` → `c`"), "got {err}");
}
