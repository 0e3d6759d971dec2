use std::time::Duration;

use ratto::box_model::{BorderPreset, Sides};
use ratto::dashboard_file::{DashboardFile, LayoutDecl, PaneDecl};
use ratto::registry::{flatten_into, Composition, LayoutNode, Overflow, ShellDecl, ShellMode, SourceId, SourceProgram};
use ratto::template::{Bindings, Template};

fn t(s: &str) -> Template {
    Template::extract(s)
}

/// The smallest legal pane: a name, a command, a declared height.
fn pane(id: &str, command: &[&str]) -> PaneDecl {
    PaneDecl {
        id: Some(id.to_string()),
        command: Some(command.iter().map(|&s| t(s)).collect()),
        height: Some(3),
        ..PaneDecl::default()
    }
}

fn file(panes: Vec<PaneDecl>) -> DashboardFile {
    DashboardFile {
        panes,
        ..DashboardFile::default()
    }
}

fn err_of(file: DashboardFile) -> String {
    format!("{:#}", file.into_registry(&Bindings::new()).unwrap_err())
}

#[test]
fn teaching_errors_name_the_kdl_spelling_not_a_toml_section() {
    // `[defaults]` is TOML section syntax, and TOML is gone. The
    // one job of a teaching error is to say what to WRITE; both of
    // these must name the bare `defaults` node.
    let mut heightless = pane("a", &["true"]);
    heightless.height = None;
    let missing_height = err_of(file(vec![heightless]));
    assert!(
        missing_height.contains("`defaults`"),
        "got {missing_height}"
    );
    assert!(
        !missing_height.contains("[defaults]"),
        "got {missing_height}"
    );

    let decl = DashboardFile {
        defaults: PaneDecl {
            command: Some(vec![t("true")]),
            ..PaneDecl::default()
        },
        panes: vec![PaneDecl {
            id: Some("b".to_string()),
            shell: Some(ShellDecl::Platform),
            height: Some(3),
            ..PaneDecl::default()
        }],
        ..DashboardFile::default()
    };
    let shell_override = format!("{:#}", decl.into_registry(&Bindings::new()).unwrap_err());
    assert!(
        shell_override.contains("`defaults`"),
        "got {shell_override}"
    );
    assert!(
        !shell_override.contains("[defaults]"),
        "got {shell_override}"
    );
}

#[test]
fn defaults_fall_through_to_every_pane() {
    let decl = DashboardFile {
        defaults: PaneDecl {
            interval: Some(t("30s")),
            border: Some(t("rounded")),
            padding: Some(t("0 1")),
            height: Some(5),
            ..PaneDecl::default()
        },
        panes: vec![
            PaneDecl {
                height: Some(4),
                ..pane("a", &["date"])
            },
            PaneDecl {
                height: Some(4),
                ..pane("b", &["date"])
            },
        ],
        ..DashboardFile::default()
    };
    // Both panes declare their own height (4 — the smallest a
    // rounded border plus the chrome row admits), so only the
    // fields the panes leave open come from `defaults`.
    let registry = decl.into_registry(&Bindings::new()).expect("registry");
    assert_eq!(registry.len(), 2);
    for id in registry.ids() {
        assert_eq!(registry.spec(id).interval, Some(Duration::from_secs(30)));
        let box_ = registry.pane(id).expect("a declared pane");
        assert_eq!(box_.border, BorderPreset::Rounded);
        assert_eq!(
            box_.padding,
            Sides {
                top: 0,
                right: 1,
                bottom: 0,
                left: 1
            }
        );
    }
}

#[test]
fn a_pane_overrides_a_default() {
    let decl = DashboardFile {
        defaults: PaneDecl {
            interval: Some(t("30s")),
            height: Some(5),
            ..PaneDecl::default()
        },
        panes: vec![
            PaneDecl {
                interval: Some(t("2s")),
                height: Some(9),
                ..pane("fast", &["date"])
            },
            pane("slow", &["date"]),
        ],
        ..DashboardFile::default()
    };
    let registry = decl.into_registry(&Bindings::new()).expect("registry");
    assert_eq!(
        registry.spec(SourceId(0)).interval,
        Some(Duration::from_secs(2))
    );
    assert_eq!(registry.pane(SourceId(0)).expect("pane").height, 9);
    // The pane that said nothing still gets the defaults.
    assert_eq!(
        registry.spec(SourceId(1)).interval,
        Some(Duration::from_secs(30))
    );
    assert_eq!(registry.pane(SourceId(1)).expect("pane").height, 3);
}

#[test]
fn interval_never_means_no_deadline() {
    // "never" is resolved HERE and nowhere else: parse_interval's
    // grammar stays exactly as shipped, or `rat watch -n never` would
    // silently become a legal flag.
    let decl = file(vec![PaneDecl {
        interval: Some(t("never")),
        ..pane("manual", &["date"])
    }]);
    let registry = decl.into_registry(&Bindings::new()).expect("registry");
    assert_eq!(registry.spec(SourceId(0)).interval, None);
    assert!(ratto::duration::parse_interval("never").is_err());
}

#[test]
fn no_interval_and_no_trigger_defaults_to_two_seconds() {
    let registry = file(vec![pane("plain", &["date"])])
        .into_registry(&Bindings::new())
        .expect("registry");
    assert_eq!(
        registry.spec(SourceId(0)).interval,
        Some(Duration::from_secs(2))
    );
}

#[test]
fn no_interval_with_a_trigger_is_trigger_only() {
    let decl = file(vec![PaneDecl {
        trigger: Some(vec![t("file:./state")]),
        ..pane("watched", &["date"])
    }]);
    let registry = decl.into_registry(&Bindings::new()).expect("registry");
    assert_eq!(registry.spec(SourceId(0)).interval, None);
    assert_eq!(registry.spec(SourceId(0)).triggers.len(), 1);
}

#[test]
fn a_pane_is_not_live_unless_it_says_so() {
    let registry = file(vec![pane("log", &["date"])])
        .into_registry(&Bindings::new())
        .expect("registry");
    assert!(!registry.spec(SourceId(0)).live);
}

#[test]
fn live_is_carried_onto_the_spec() {
    let registry = file(vec![PaneDecl {
        live: Some(true),
        ..pane("log", &["date"])
    }])
    .into_registry(&Bindings::new())
    .expect("registry");
    assert!(registry.spec(SourceId(0)).live);
}

#[test]
fn live_is_inheritable_from_defaults_and_overridable_per_pane() {
    let mut decl = file(vec![
        pane("a", &["date"]),
        PaneDecl {
            live: Some(false),
            ..pane("b", &["date"])
        },
    ]);
    decl.defaults.live = Some(true);
    let registry = decl.into_registry(&Bindings::new()).expect("registry");
    assert!(registry.spec(SourceId(0)).live, "inherits the default");
    assert!(
        !registry.spec(SourceId(1)).live,
        "a pane must be able to opt back out"
    );
}

#[test]
fn focusability_defaults_true_and_inherits_with_an_override() {
    let mut decl = file(vec![
        pane("header", &["date"]),
        PaneDecl {
            focusable: Some(true),
            ..pane("log", &["date"])
        },
    ]);
    decl.defaults.focusable = Some(false);
    let registry = decl.into_registry(&Bindings::new()).expect("registry");
    assert!(
        !registry.pane(SourceId(0)).expect("header box").focusable,
        "the header inherits the default"
    );
    assert!(
        registry.pane(SourceId(1)).expect("log box").focusable,
        "a pane can opt back in"
    );

    let ordinary = file(vec![pane("ordinary", &["date"])])
        .into_registry(&Bindings::new())
        .expect("registry");
    assert!(
        ordinary.pane(SourceId(0)).expect("ordinary box").focusable,
        "omission preserves the existing focus behavior"
    );
}

/// Selectability travels the same road focusability does and is a
/// different answer from it — but it travels it in the opposite
/// DIRECTION, and that is the point of this test.
///
/// `focusable` is a subtraction from something every board already
/// wants. A line cursor has no built-in consumer at all: nothing in
/// rat reads a marked line, and its whole value flows out through a
/// key action's environment. A pane that nobody wired a key action
/// to therefore gains a gesture that can never lead anywhere, which
/// is why the answer here is `live`'s and not `focusable`'s.
#[test]
fn selectability_is_opt_in_and_inherits_with_an_override() {
    let mut decl = file(vec![
        pane("changed", &["date"]),
        PaneDecl {
            selectable: Some(false),
            ..pane("diff", &["date"])
        },
    ]);
    decl.defaults.selectable = Some(true);
    let registry = decl.into_registry(&Bindings::new()).expect("registry");
    assert!(
        registry.pane(SourceId(0)).expect("changed box").selectable,
        "the pane inherits the default"
    );
    assert!(
        !registry.pane(SourceId(1)).expect("diff box").selectable,
        "a pane can opt back out"
    );
    // Independent answers: asking for a cursor must not quietly
    // change a pane's place in the focus order, and declining one
    // must not cost it that place either.
    assert!(
        registry.pane(SourceId(1)).expect("diff box").focusable,
        "opting out of selection is not opting out of focus"
    );

    let ordinary = file(vec![pane("ordinary", &["date"])])
        .into_registry(&Bindings::new())
        .expect("registry");
    assert!(
        !ordinary.pane(SourceId(0)).expect("ordinary box").selectable,
        "a pane that asked for nothing takes no cursor"
    );
}

/// The board-level answer, read straight off the declarations
/// because the surface that needs it runs before anything is
/// resolved: does the cursor key mean anything on this board at all.
#[test]
fn a_board_takes_a_cursor_only_when_some_pane_asked_for_one() {
    assert!(
        !file(vec![pane("a", &["date"]), pane("b", &["date"])]).takes_a_cursor(),
        "no pane asked"
    );

    let one = file(vec![
        pane("a", &["date"]),
        PaneDecl {
            selectable: Some(true),
            ..pane("b", &["date"])
        },
    ]);
    assert!(one.takes_a_cursor(), "one pane is enough");

    // Inherited, not merely declared — the same rule the box
    // resolver applies, so the two can never answer differently
    // about the same board.
    let mut inherited = file(vec![pane("a", &["date"])]);
    inherited.defaults.selectable = Some(true);
    assert!(inherited.takes_a_cursor(), "a default reaches every pane");

    // And a pane can opt back out of an inherited yes, all the way
    // down to a board that takes no cursor after all.
    let mut opted_out = file(vec![PaneDecl {
        selectable: Some(false),
        ..pane("a", &["date"])
    }]);
    opted_out.defaults.selectable = Some(true);
    assert!(!opted_out.takes_a_cursor(), "the only pane opted back out");
}

/// A pane that asks for a cursor but opts out of navigation can
/// never be reached to receive one, so it does not make the board
/// one that takes a cursor.
///
/// Answering on `selectable` alone would claim the cursor key and
/// advertise it in the reference for a board where pressing it is a
/// permanent no-op — and would cost that board a binding it could
/// otherwise have declared.
#[test]
fn a_pane_that_cannot_be_focused_does_not_make_a_board_take_a_cursor() {
    let unreachable = file(vec![PaneDecl {
        focusable: Some(false),
        selectable: Some(true),
        ..pane("banner", &["date"])
    }]);
    assert!(
        !unreachable.takes_a_cursor(),
        "no gesture can reach this pane, so the key stays the board's"
    );

    // The anti-vacuity half: the same pane reachable IS a board that
    // takes a cursor, so the assertion above is about the focus
    // filter and not about the declaration being ignored.
    let reachable = file(vec![PaneDecl {
        focusable: Some(true),
        selectable: Some(true),
        ..pane("changed", &["date"])
    }]);
    assert!(reachable.takes_a_cursor());

    // And the inherited form, since `defaults` is how a board most
    // easily reaches this state by accident.
    let mut inherited = file(vec![PaneDecl {
        selectable: Some(true),
        ..pane("banner", &["date"])
    }]);
    inherited.defaults.focusable = Some(false);
    assert!(
        !inherited.takes_a_cursor(),
        "a defaults-level opt-out of focus reaches this too"
    );
}

#[test]
fn a_live_pane_with_no_overflow_declared_resolves_to_keep_bottom() {
    // A live pane is read at its TAIL. The shipped `None => KeepTop`
    // default would otherwise hand every live pane the one overflow
    // refused below, making a bare `live` a load error.
    let registry = file(vec![PaneDecl {
        live: Some(true),
        ..pane("log", &["date"])
    }])
    .into_registry(&Bindings::new())
    .expect("registry");
    assert_eq!(
        registry.pane(SourceId(0)).expect("pane").overflow,
        Overflow::KeepBottom
    );
}

#[test]
fn a_batch_pane_with_no_overflow_declared_still_resolves_to_keep_top() {
    // The shipped default is untouched — a live-only override, not a
    // change to what every other pane does.
    let registry = file(vec![pane("p", &["date"])])
        .into_registry(&Bindings::new())
        .expect("registry");
    assert_eq!(
        registry.pane(SourceId(0)).expect("pane").overflow,
        Overflow::KeepTop
    );
}

#[test]
fn keep_top_declared_on_a_live_pane_is_refused() {
    // Under keep-top the change marks are computed and then
    // structurally discarded — the window never reaches an index at
    // or past the pane's row count — so `D` and `c` do nothing for
    // that pane and nothing says why. Silent death of two features is
    // worse than a load error.
    let err = err_of(file(vec![PaneDecl {
        live: Some(true),
        overflow: Some(t("keep-top")),
        ..pane("log", &["date"])
    }]));
    assert!(err.contains("log"), "names the pane: {err}");
    assert!(err.contains("keep-top"), "names what is wrong: {err}");
    assert!(err.contains("keep-bottom"), "names the fix: {err}");
}

#[test]
fn keep_top_inherited_from_defaults_is_refused_on_a_live_pane_too() {
    // The route that would otherwise slip through: nothing on the
    // pane says keep-top, so a check reading only the pane's own
    // token passes it.
    let mut decl = file(vec![PaneDecl {
        live: Some(true),
        ..pane("log", &["date"])
    }]);
    decl.defaults.overflow = Some(t("keep-top"));
    let err = err_of(decl);
    assert!(err.contains("log"), "{err}");
}

#[test]
fn keep_top_stays_legal_on_a_batch_pane() {
    // The refusal is about the COMBINATION. keep-top is the shipped
    // default and must not become an error.
    let registry = file(vec![PaneDecl {
        overflow: Some(t("keep-top")),
        ..pane("p", &["date"])
    }])
    .into_registry(&Bindings::new())
    .expect("registry");
    assert_eq!(
        registry.pane(SourceId(0)).expect("pane").overflow,
        Overflow::KeepTop
    );
}

#[test]
fn live_with_keep_bottom_declared_is_accepted() {
    let registry = file(vec![PaneDecl {
        live: Some(true),
        overflow: Some(t("keep-bottom")),
        ..pane("log", &["date"])
    }])
    .into_registry(&Bindings::new())
    .expect("registry");
    assert_eq!(
        registry.pane(SourceId(0)).expect("pane").overflow,
        Overflow::KeepBottom
    );
}

#[test]
fn a_duplicate_id_is_first_win_not_fatal() {
    // A duplicate only matters once a ref points at it, so it is
    // a diagnostic, never a load failure. Layout cells bind the
    // first UNPLACED pane with the id, in document order — so
    // both panes still render, and refs (which never place) bind
    // the first declaration.
    let registry = file(vec![pane("git", &["date"]), pane("git", &["uptime"])])
        .into_registry(&Bindings::new())
        .expect("duplicates load");
    assert_eq!(registry.len(), 2, "both panes survive");
    assert!(
        registry
            .diagnostics()
            .iter()
            .any(|d| d.contains("duplicate id \"git\"")),
        "the duplicate is surfaced as a diagnostic: {:?}",
        registry.diagnostics()
    );
    let Composition::Panes { layout, .. } = registry.composition() else {
        panic!("panes")
    };
    let LayoutNode::Column(cells) = layout else {
        panic!("two top-level panes stack: {layout:?}")
    };
    assert_eq!(
        cells.as_slice(),
        &[LayoutNode::Pane(SourceId(0)), LayoutNode::Pane(SourceId(1))],
        "occurrences bind in document order"
    );
}

#[test]
fn a_pane_placed_more_often_than_declared_is_refused() {
    let mut f = file(vec![pane("git", &["date"])]);
    f.layout = Some(vec![
        LayoutDecl::Pane("git".to_string()),
        LayoutDecl::Pane("git".to_string()),
    ]);
    let err = format!("{:#}", f.into_registry(&Bindings::new()).unwrap_err());
    assert!(err.contains("more times than"), "{err}");
}

#[test]
fn an_unknown_overflow_names_the_two_values() {
    let err = err_of(file(vec![PaneDecl {
        overflow: Some(t("keep-middle")),
        ..pane("log", &["date"])
    }]));
    assert!(err.contains("log"), "{err}");
    assert!(err.contains("keep-top"), "{err}");
    assert!(err.contains("keep-bottom"), "{err}");
}

#[test]
fn a_bad_trigger_spec_names_the_pane_and_the_schemes() {
    // parse_trigger already teaches the schemes; the declaration
    // layer only has to say WHICH pane wrote it.
    let err = err_of(file(vec![PaneDecl {
        trigger: Some(vec![t("/tmp/state.json")]),
        ..pane("build", &["date"])
    }]));
    assert!(err.contains("build"), "{err}");
    assert!(err.contains("file:"), "{err}");
}

#[test]
fn an_absent_layout_stacks_panes_in_declaration_order() {
    let registry = file(vec![
        pane("top", &["date"]),
        pane("middle", &["date"]),
        pane("bottom", &["date"]),
    ])
    .into_registry(&Bindings::new())
    .expect("registry");
    let Composition::Panes { layout, .. } = registry.composition() else {
        panic!("a dashboard composes panes");
    };
    assert_eq!(
        layout,
        &LayoutNode::Column(vec![
            LayoutNode::Pane(SourceId(0)),
            LayoutNode::Pane(SourceId(1)),
            LayoutNode::Pane(SourceId(2)),
        ])
    );
}

#[test]
fn a_layout_naming_an_unknown_pane_lists_the_declared_names() {
    let decl = DashboardFile {
        panes: vec![pane("git", &["date"]), pane("clock", &["date"])],
        layout: Some(vec![LayoutDecl::Row(vec![
            LayoutDecl::Pane("git".to_string()),
            LayoutDecl::Pane("clok".to_string()),
        ])]),
        ..DashboardFile::default()
    };
    let err = err_of(decl);
    assert!(err.contains("clok"), "{err}");
    assert!(err.contains("clock"), "{err}");
}

#[test]
fn a_shell_pane_keeps_its_script_verbatim() {
    // The script never round-trips through split-then-join, or its
    // quoting is destroyed. into_registry copies the vec.
    let script = "date +%H:%M | tr -d '\\n'";
    let decl = file(vec![PaneDecl {
        shell: Some(ShellDecl::Platform),
        command: Some(vec![t(script)]),
        ..pane("stamp", &["unused"])
    }]);
    let registry = decl.into_registry(&Bindings::new()).expect("registry");
    let spec = registry.spec(SourceId(0));
    assert_eq!(spec.shell, ShellMode::Platform);
    assert_eq!(spec.program, SourceProgram::Argv(vec![t(script)]));
}

/// The smallest legal script pane: a name, a body, a height.
fn script_pane(id: &str, body: &str) -> PaneDecl {
    PaneDecl {
        id: Some(id.to_string()),
        script: Some(t(body)),
        height: Some(3),
        ..PaneDecl::default()
    }
}

#[test]
fn a_pane_with_both_command_and_script_is_rejected() {
    let mut decl = pane("x", &["date"]);
    decl.script = Some(t("#!/bin/sh\necho hi"));
    let err = err_of(file(vec![decl]));
    assert!(err.contains("pane \"x\""), "{err}");
    assert!(err.contains("both `command` and `script`"), "{err}");
    assert!(err.contains("not both"), "{err}");
}

#[test]
fn defaults_with_both_command_and_script_are_rejected() {
    let decl = DashboardFile {
        defaults: PaneDecl {
            command: Some(vec![t("date")]),
            script: Some(t("#!/bin/sh\necho hi")),
            height: Some(3),
            ..PaneDecl::default()
        },
        panes: vec![pane("a", &["true"])],
        ..DashboardFile::default()
    };
    let err = err_of(decl);
    assert!(err.starts_with("defaults:"), "{err}");
    assert!(err.contains("both `command` and `script`"), "{err}");
}

#[test]
fn an_empty_script_body_is_rejected_with_the_block_spelling() {
    for body in ["", "   \n  "] {
        let err = err_of(file(vec![script_pane("x", body)]));
        assert!(err.contains("pane \"x\""), "{err}");
        assert!(err.contains("no body"), "{err}");
        assert!(err.contains("\"\"\""), "{err}");
    }
}

#[test]
fn an_indented_shebang_is_rejected_naming_the_dedent_rule() {
    // KDL's dedent can move a `#!` off byte 0; silently taking the
    // fallback would run the body through a shell the author never
    // chose. Refuse loudly, naming the mechanism and the fix.
    let err = err_of(file(vec![script_pane("x", "  #!/bin/sh\necho hi")]));
    assert!(err.contains("pane \"x\""), "{err}");
    assert!(err.contains("first two bytes"), "{err}");
    assert!(err.contains("align the closing"), "{err}");
    // A body with no `#!` anywhere still falls back gracefully —
    // the refusal is only for a demonstrably indented shebang.
    let decl = file(vec![script_pane("y", "echo hi")]);
    assert!(decl.into_registry(&Bindings::new()).is_ok());
}

#[test]
fn a_pane_with_no_program_teaches_both_spellings() {
    let mut decl = pane("x", &["unused"]);
    decl.command = None;
    let err = err_of(file(vec![decl]));
    assert!(err.contains("needs a `command` or a `script`"), "{err}");
}

#[test]
fn a_panes_own_running_shell_under_a_shebang_body_is_rejected() {
    // `#true` and a name both: the declared shell would never run.
    for shell in [ShellDecl::Platform, ShellDecl::Named(t("fish"))] {
        let mut decl = script_pane("x", "#!/usr/bin/env python3\nprint(1)");
        decl.shell = Some(shell);
        let err = err_of(file(vec![decl]));
        assert!(err.contains("pane \"x\""), "{err}");
        assert!(err.contains("`#!` wins"), "{err}");
        assert!(err.contains("/usr/bin/env python3"), "{err}");
        assert!(err.contains("Drop `shell`"), "{err}");
    }
    // The own key fires it even when the shebang body is INHERITED:
    // that pane's shell is exactly as dead.
    let decl = DashboardFile {
        defaults: PaneDecl {
            script: Some(t("#!/bin/sh\necho hi")),
            height: Some(3),
            ..PaneDecl::default()
        },
        panes: vec![PaneDecl {
            id: Some("x".to_string()),
            shell: Some(ShellDecl::Named(t("fish"))),
            ..PaneDecl::default()
        }],
        ..DashboardFile::default()
    };
    let err = err_of(decl);
    assert!(err.contains("`#!` wins"), "{err}");
}

#[test]
fn shell_false_under_a_shebangless_body_is_rejected() {
    // Own `#false`.
    let mut decl = script_pane("x", "echo hi");
    decl.shell = Some(ShellDecl::Direct);
    let err = err_of(file(vec![decl]));
    assert!(err.contains("pane \"x\""), "{err}");
    assert!(err.contains("shell #false"), "{err}");
    assert!(err.contains("`command`"), "{err}");
    // Inherited `#false` refuses the same way — resolved is
    // resolved.
    let decl = DashboardFile {
        defaults: PaneDecl {
            shell: Some(ShellDecl::Direct),
            height: Some(3),
            ..PaneDecl::default()
        },
        panes: vec![script_pane("y", "echo hi")],
        ..DashboardFile::default()
    };
    let err = err_of(decl);
    assert!(err.contains("shell #false"), "{err}");
}

#[test]
fn shell_false_under_a_shebang_body_is_allowed_as_honest() {
    // No shell runs and none was promised: `#false` beside a `#!`
    // is true, and refusing it would deadlock a defaults-wide
    // `shell #false` with any shebang pane.
    let mut decl = script_pane("x", "#!/bin/sh\necho hi");
    decl.shell = Some(ShellDecl::Direct);
    let registry = file(vec![decl])
        .into_registry(&Bindings::new())
        .expect("registry");
    assert_eq!(
        registry.spec(SourceId(0)).program,
        SourceProgram::Script(t("#!/bin/sh\necho hi"))
    );
    // Inherited #false likewise.
    let decl = DashboardFile {
        defaults: PaneDecl {
            shell: Some(ShellDecl::Direct),
            height: Some(3),
            ..PaneDecl::default()
        },
        panes: vec![script_pane("y", "#!/bin/sh\necho hi")],
        ..DashboardFile::default()
    };
    assert!(decl.into_registry(&Bindings::new()).is_ok());
}

#[test]
fn a_script_body_inherits_from_defaults() {
    // One dispatcher body serving every pane is the advertised use:
    // the id reaches each child as RAT_PANE.
    let decl = DashboardFile {
        defaults: PaneDecl {
            script: Some(t("#!/bin/sh\necho $RAT_PANE")),
            height: Some(3),
            ..PaneDecl::default()
        },
        panes: vec![
            PaneDecl {
                id: Some("a".to_string()),
                ..PaneDecl::default()
            },
            PaneDecl {
                id: Some("b".to_string()),
                ..PaneDecl::default()
            },
        ],
        ..DashboardFile::default()
    };
    let registry = decl.into_registry(&Bindings::new()).expect("registry");
    for id in [SourceId(0), SourceId(1)] {
        assert_eq!(
            registry.spec(id).program,
            SourceProgram::Script(t("#!/bin/sh\necho $RAT_PANE"))
        );
    }
}

#[test]
fn an_inherited_shebangless_script_with_a_changed_shell_dialect_is_rejected() {
    // The M7.1 guard, generalized: a no-shebang body's syntax
    // belongs to the shell it was written under.
    let decl = DashboardFile {
        defaults: PaneDecl {
            shell: Some(ShellDecl::Platform),
            script: Some(t("echo inherited")),
            height: Some(3),
            ..PaneDecl::default()
        },
        panes: vec![PaneDecl {
            id: Some("x".to_string()),
            shell: Some(ShellDecl::Named(t("fish"))),
            ..PaneDecl::default()
        }],
        ..DashboardFile::default()
    };
    let err = err_of(decl);
    assert!(err.contains("inherits `script`"), "{err}");
    assert!(err.contains("overrides `shell`"), "{err}");
}

#[test]
fn a_shebang_body_ignores_an_inherited_shell() {
    // The defaults' shell serves the OTHER panes; this pane's `#!`
    // wins silently — nothing pane-local is dead.
    let decl = DashboardFile {
        defaults: PaneDecl {
            shell: Some(ShellDecl::Named(t("fish"))),
            height: Some(3),
            ..PaneDecl::default()
        },
        panes: vec![script_pane("x", "#!/bin/sh\necho hi")],
        ..DashboardFile::default()
    };
    let registry = decl.into_registry(&Bindings::new()).expect("registry");
    assert_eq!(
        registry.spec(SourceId(0)).program,
        SourceProgram::Script(t("#!/bin/sh\necho hi"))
    );
}

#[test]
fn a_script_body_with_no_shell_declared_resolves_to_the_platform_shell() {
    // A shebang-less body cannot run Direct; absence promotes to
    // the platform's shell, exactly what `shell #true` means.
    let registry = file(vec![script_pane("x", "echo hi")])
        .into_registry(&Bindings::new())
        .expect("registry");
    assert_eq!(registry.spec(SourceId(0)).shell, ShellMode::Platform);
}

#[test]
fn a_panes_own_command_overrides_an_inherited_script() {
    let decl = DashboardFile {
        defaults: PaneDecl {
            script: Some(t("#!/bin/sh\necho hi")),
            height: Some(3),
            ..PaneDecl::default()
        },
        panes: vec![pane("x", &["date"])],
        ..DashboardFile::default()
    };
    let registry = decl.into_registry(&Bindings::new()).expect("registry");
    assert_eq!(
        registry.spec(SourceId(0)).program,
        SourceProgram::Argv(vec![t("date")])
    );
}

#[test]
fn an_inherited_command_with_a_changed_shell_dialect_is_rejected() {
    // The syntax of the defaults' script belongs to the defaults'
    // SHELL, not just to "a shell": running it under a different
    // one executes a command nobody wrote. The error names both
    // modes so the author sees the mismatch, and the fix.
    let decl = DashboardFile {
        defaults: PaneDecl {
            shell: Some(ShellDecl::Platform),
            command: Some(vec![t("printf inherited")]),
            height: Some(3),
            ..PaneDecl::default()
        },
        panes: vec![PaneDecl {
            id: Some("fishy".to_string()),
            shell: Some(ShellDecl::Named(t("fish"))),
            ..PaneDecl::default()
        }],
        ..DashboardFile::default()
    };
    let err = format!("{:#}", decl.into_registry(&Bindings::new()).unwrap_err());
    assert!(err.contains("fishy"), "{err}");
    assert!(err.contains("the platform shell"), "{err}");
    assert!(err.contains("`fish`"), "{err}");
    assert!(err.contains("declare the pane's own `command`"), "{err}");
}

#[test]
fn an_inherited_command_under_the_same_named_shell_is_accepted() {
    // Restating the defaults' own mode changes nothing the script
    // was written under.
    let decl = DashboardFile {
        defaults: PaneDecl {
            shell: Some(ShellDecl::Named(t("fish"))),
            command: Some(vec![t("printf inherited")]),
            height: Some(3),
            ..PaneDecl::default()
        },
        panes: vec![PaneDecl {
            id: Some("same".to_string()),
            shell: Some(ShellDecl::Named(t("fish"))),
            ..PaneDecl::default()
        }],
        ..DashboardFile::default()
    };
    let registry = decl
        .into_registry(&Bindings::new())
        .expect("same mode inherits fine");
    assert_eq!(
        registry.spec(SourceId(0)).shell,
        ShellMode::Named("fish".to_string())
    );
}

#[test]
fn the_platform_shell_is_not_the_named_sh() {
    // Platform is cmd on Windows, so "the same thing" is only true
    // on unix — the guard treats them as different modes
    // everywhere. This is the arm someone will later "fix" as a
    // bug; it is not one.
    let decl = DashboardFile {
        defaults: PaneDecl {
            shell: Some(ShellDecl::Platform),
            command: Some(vec![t("printf inherited")]),
            height: Some(3),
            ..PaneDecl::default()
        },
        panes: vec![PaneDecl {
            id: Some("pedantic".to_string()),
            shell: Some(ShellDecl::Named(t("sh"))),
            ..PaneDecl::default()
        }],
        ..DashboardFile::default()
    };
    let err = format!("{:#}", decl.into_registry(&Bindings::new()).unwrap_err());
    assert!(err.contains("pedantic"), "{err}");
    assert!(err.contains("`sh`"), "{err}");
}

#[test]
fn a_named_shell_in_defaults_reaches_a_pane_with_its_own_command() {
    let decl = DashboardFile {
        defaults: PaneDecl {
            shell: Some(ShellDecl::Named(t("fish"))),
            height: Some(3),
            ..PaneDecl::default()
        },
        panes: vec![PaneDecl {
            id: Some("own".to_string()),
            command: Some(vec![t("date")]),
            ..PaneDecl::default()
        }],
        ..DashboardFile::default()
    };
    let registry = decl
        .into_registry(&Bindings::new())
        .expect("plain inheritance");
    assert_eq!(
        registry.spec(SourceId(0)).shell,
        ShellMode::Named("fish".to_string())
    );
}

#[test]
fn an_inherited_command_with_an_overridden_shell_is_rejected() {
    // The defaults' command string was word-split (or kept verbatim)
    // under the DEFAULTS' shell mode at parse time; a pane that
    // flips `shell` while inheriting it would execute a
    // wrongly-shaped argv. Both directions error, teaching the fix.
    let decl = DashboardFile {
        defaults: PaneDecl {
            shell: Some(ShellDecl::Platform),
            command: Some(vec![t("printf inherited")]),
            height: Some(3),
            ..PaneDecl::default()
        },
        panes: vec![PaneDecl {
            id: Some("plain".to_string()),
            shell: Some(ShellDecl::Direct),
            ..PaneDecl::default()
        }],
        ..DashboardFile::default()
    };
    let err = format!("{:#}", decl.into_registry(&Bindings::new()).unwrap_err());
    assert!(err.contains("plain"), "{err}");
    assert!(err.contains("shell"), "{err}");
    assert!(err.contains("command"), "{err}");

    let reverse = DashboardFile {
        defaults: PaneDecl {
            command: Some(vec![t("git"), t("status")]),
            height: Some(3),
            ..PaneDecl::default()
        },
        panes: vec![PaneDecl {
            id: Some("shelly".to_string()),
            shell: Some(ShellDecl::Platform),
            ..PaneDecl::default()
        }],
        ..DashboardFile::default()
    };
    assert!(reverse.into_registry(&Bindings::new()).is_err());

    // Matching modes inherit fine.
    let ok = DashboardFile {
        defaults: PaneDecl {
            command: Some(vec![t("date")]),
            height: Some(3),
            ..PaneDecl::default()
        },
        panes: vec![
            pane("fine", &["unused"]),
            PaneDecl {
                id: Some("inheriting".to_string()),
                command: None,
                ..pane("inheriting", &["unused"])
            },
        ],
        ..DashboardFile::default()
    };
    assert!(ok.into_registry(&Bindings::new()).is_ok());
}

#[test]
fn a_nested_layout_resolves_rows_within_rows() {
    // A row may hold columns and a column rows, to any depth: the
    // engine's tree was recursive from day one; the declaration
    // now reaches it.
    let decl = DashboardFile {
        panes: vec![
            pane("a", &["date"]),
            pane("b", &["date"]),
            pane("c", &["date"]),
        ],
        layout: Some(vec![LayoutDecl::Row(vec![
            LayoutDecl::Column(vec![
                LayoutDecl::Pane("a".to_string()),
                LayoutDecl::Pane("b".to_string()),
            ]),
            LayoutDecl::Pane("c".to_string()),
        ])]),
        ..DashboardFile::default()
    };
    let registry = decl.into_registry(&Bindings::new()).expect("registry");
    let Composition::Panes { layout, .. } = registry.composition() else {
        panic!("a dashboard composes panes");
    };
    assert_eq!(
        layout,
        &LayoutNode::Column(vec![LayoutNode::Row(vec![
            LayoutNode::Column(vec![
                LayoutNode::Pane(SourceId(0)),
                LayoutNode::Pane(SourceId(1)),
            ]),
            LayoutNode::Pane(SourceId(2)),
        ])])
    );
}

#[test]
fn nested_layout_errors_still_name_the_pane() {
    // The exactly-once and known-name rules hold at any depth.
    let dup = DashboardFile {
        panes: vec![pane("a", &["date"]), pane("b", &["date"])],
        layout: Some(vec![LayoutDecl::Row(vec![
            LayoutDecl::Pane("a".to_string()),
            LayoutDecl::Column(vec![
                LayoutDecl::Pane("b".to_string()),
                LayoutDecl::Pane("a".to_string()),
            ]),
        ])]),
        ..DashboardFile::default()
    };
    let err = format!("{:#}", dup.into_registry(&Bindings::new()).unwrap_err());
    assert!(
        err.contains("\"a\"") && err.contains("more times than"),
        "{err}"
    );

    let empty = DashboardFile {
        panes: vec![pane("a", &["date"])],
        layout: Some(vec![
            LayoutDecl::Pane("a".to_string()),
            LayoutDecl::Column(Vec::new()),
        ]),
        ..DashboardFile::default()
    };
    let err = format!("{:#}", empty.into_registry(&Bindings::new()).unwrap_err());
    assert!(err.contains("empty"), "{err}");
}

#[test]
fn a_pane_without_a_height_names_the_defaults_key() {
    // Every pane's box height is DECLARED. There is no default to
    // fall back on, so the error has to teach where to put one.
    let err = err_of(file(vec![PaneDecl {
        height: None,
        ..pane("sizeless", &["date"])
    }]));
    assert!(err.contains("sizeless"), "{err}");
    assert!(err.contains("height"), "{err}");
    assert!(err.contains("defaults"), "{err}");
}


#[test]
fn a_pane_its_frame_fills_is_refused_with_the_least_height() {
    // No border, no padding, the status row: one row of frame.
    let err = err_of(file(vec![PaneDecl {
        height: Some(1),
        ..pane("a", &["date"])
    }]));
    assert_eq!(
        err,
        "pane \"a\" is 1 rows tall, but its border, padding, and status row already take 1: give it at least 2"
    );
}

#[test]
fn a_chromeless_pane_one_row_tall_is_accepted() {
    let built = file(vec![PaneDecl {
        height: Some(1),
        chrome: Some(false),
        ..pane("a", &["date"])
    }])
    .into_registry(&Bindings::new());
    assert!(built.is_ok());
}

#[test]
fn a_layout_that_skips_a_pane_names_it() {
    let decl = DashboardFile {
        panes: vec![pane("a", &["date"]), pane("b", &["date"])],
        layout: Some(vec![LayoutDecl::Pane("a".to_string())]),
        ..DashboardFile::default()
    };
    assert_eq!(
        err_of(decl),
        "pane \"b\" is declared but never placed: add it to the layout"
    );
}

#[test]
fn a_layout_naming_an_unknown_pane_lists_the_declared_ones() {
    let decl = DashboardFile {
        panes: vec![pane("a", &["date"]), pane("b", &["date"])],
        layout: Some(vec![LayoutDecl::Pane("zz".to_string())]),
        ..DashboardFile::default()
    };
    assert_eq!(
        err_of(decl),
        "layout names unknown pane \"zz\": declared panes are a, b"
    );
}

#[test]
fn a_resolved_layout_places_each_pane_once_in_reading_order() {
    let decl = DashboardFile {
        panes: vec![pane("a", &["date"]), pane("b", &["date"]), pane("c", &["date"])],
        layout: Some(vec![LayoutDecl::Row(vec![
            LayoutDecl::Pane("c".to_string()),
            LayoutDecl::Column(vec![
                LayoutDecl::Pane("a".to_string()),
                LayoutDecl::Pane("b".to_string()),
            ]),
        ])]),
        ..DashboardFile::default()
    };
    let registry = decl.into_registry(&Bindings::new()).expect("registry");
    let Composition::Panes { layout, .. } = registry.composition() else {
        panic!("expected panes");
    };
    let mut ids = Vec::new();
    flatten_into(layout, &mut ids);
    assert_eq!(ids, vec![SourceId(2), SourceId(0), SourceId(1)]);
}

#[test]
fn normalizing_keeps_the_panes_in_reading_order() {
    let d = LayoutDecl::Row(vec![LayoutDecl::Column(vec![LayoutDecl::Pane("a".to_string())]), LayoutDecl::Pane("b".to_string())]);
    assert_eq!(
        d.normalized(),
        LayoutDecl::Row(vec![LayoutDecl::Pane("a".to_string()), LayoutDecl::Pane("b".to_string())])
    );
    assert_eq!(
        LayoutDecl::Row(vec![LayoutDecl::Pane("clock".to_string())]).normalized(),
        LayoutDecl::Pane("clock".to_string())
    );
}
