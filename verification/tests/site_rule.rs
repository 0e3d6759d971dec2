use ratto::dashboard_kdl::parse_styled;
use ratto::registry::{Registry, ShellMode, SourceId};
use ratto::template::Bindings;
use ratto::trigger::parse_trigger;

/// Parse a board and run the one validation path; a board that fails
/// either stage yields its error text.
fn load_err(text: &str) -> String {
    match parse_styled(text, false) {
        Err(err) => err,
        Ok(file) => file.into_registry(&Bindings::new()).expect_err("refused"),
    }
}

fn load_result(text: &str) -> Result<Registry, String> {
    parse_styled(text, false).expect("parses").into_registry(&Bindings::new())
}

fn bindings(pairs: &[(&str, &str)]) -> Bindings {
    let mut b = Bindings::new();
    for (name, value) in pairs {
        b.insert(name.to_string(), value.to_string());
    }
    b
}

/// The site-rule sentence's fingerprint — what a reject must carry and
/// an accept must not.
const SITE_PHRASE: &str = "is read when the dashboard loads";

fn deferred_board(site_line: &str) -> String {
    format!(
        "variables {{\n    x \"echo v\" shell=#true defer=#true\n}}\n\npane \"p\" {{\n    command \"true\"\n    height 3\n    {site_line}\n}}\n"
    )
}

fn load_tier_board(site_line: &str) -> String {
    format!(
        "variables {{\n    x \"echo v\" shell=#true\n}}\n\npane \"p\" {{\n    command \"true\"\n    height 3\n    {site_line}\n}}\n"
    )
}

#[test]
fn every_load_time_site_refuses_a_deferred_reference_and_accepts_a_load_one() {
    for (site_line, site) in [
        ("trigger \"file:{{x}}\"", "trigger"),
        ("interval \"{{x}}\"", "interval"),
        ("trigger-debounce \"{{x}}\"", "trigger-debounce"),
        ("width \"{{x}}\"", "width"),
        ("overflow \"{{x}}\"", "overflow"),
        ("border \"{{x}}\"", "border"),
        ("padding \"{{x}}\"", "padding"),
        ("title \"{{x}}\"", "title"),
        ("shell \"{{x}}\"", "shell"),
    ] {
        let err = load_err(&deferred_board(site_line));
        assert!(err.contains(SITE_PHRASE), "{site} rejects: {err}");
        assert!(err.contains(&format!("`{site}`")), "{site} named: {err}");
        assert!(err.contains("`x`"), "the variable named: {err}");

        match load_result(&load_tier_board(site_line)) {
            Ok(_) => {}
            Err(err) => {
                assert!(
                    !err.contains(SITE_PHRASE),
                    "{site} accepts a load-tier reference; any failure is the token parser's own: {err}"
                );
            }
        }
    }
    let err = load_err(
        "variables {\n    x \"echo v\" shell=#true defer=#true\n}\ntitle \"{{x}}\"\npane \"p\" {\n    command \"true\"\n    height 3\n}\n",
    );
    assert!(err.contains(SITE_PHRASE), "{err}");
    assert!(err.contains("`title`"), "{err}");

    load_result(&deferred_board("")).expect("a bare pane loads");
    load_result(
        "variables {\n    x \"echo v\" shell=#true defer=#true\n}\n\npane \"p\" {\n    command \"echo {{x}}\"\n    shell #true\n    height 3\n}\n",
    )
    .expect("a deferred reference in command argv is the point of defer");
    load_result(
        "variables {\n    x \"echo v\" shell=#true defer=#true\n}\n\npane \"p\" {\n    script \"echo {{x}}\"\n    height 3\n}\n",
    )
    .expect("a script body past the classifier is a spawn site");
}

#[test]
fn both_value_shapes_are_checked() {
    let err = load_err(
        "variables {\n    x \"echo v\" shell=#true defer=#true\n}\n\npane \"p\" interval=\"{{x}}\" {\n    command \"true\"\n    height 3\n}\n",
    );
    assert!(err.contains(SITE_PHRASE), "property spelling: {err}");
    let err = load_err(&deferred_board("interval \"{{x}}\""));
    assert!(err.contains(SITE_PHRASE), "child-node spelling: {err}");
    let err = load_err(&deferred_board("trigger \"file:./a\" \"file:{{x}}\""));
    assert!(err.contains(SITE_PHRASE), "list shape: {err}");
}

#[test]
fn an_inherited_value_names_the_pane_and_says_it_came_from_defaults() {
    let err = load_err(
        "variables {\n    iv \"echo v\" shell=#true defer=#true\n}\n\ndefaults {\n    interval \"{{iv}}\"\n}\n\npane \"p\" {\n    command \"true\"\n    height 3\n}\n",
    );
    assert!(err.contains("pane \"p\""), "names the pane: {err}");
    assert!(err.contains("inherited from `defaults`"), "says where to edit: {err}");
    match load_result(
        "variables {\n    iv \"echo v\" shell=#true\n}\n\ndefaults {\n    interval \"{{iv}}\"\n}\n\npane \"p\" {\n    command \"true\"\n    height 3\n}\n",
    ) {
        Ok(_) => {}
        Err(err) => {
            assert!(!err.contains(SITE_PHRASE), "{err}");
        }
    }
}

#[test]
fn a_raw_string_holding_a_deferred_reference_is_accepted_at_a_load_typed_site() {
    let err = load_err(&deferred_board("interval #\"{{x}}\"#"));
    assert!(!err.contains(SITE_PHRASE), "{err}");
    assert!(err.contains("invalid duration"), "parse_interval's own error: {err}");
    load_result(&deferred_board("trigger #\"file:{{x}}\"#")).expect("a raw trigger is literal bytes");
    load_result(&deferred_board("shell #\"{{x}}\"#")).expect("a raw dialect name is literal bytes");
}

#[test]
fn a_load_time_variable_referencing_a_deferred_one_was_already_refused_by_the_block() {
    let err = load_err(
        "variables {\n    a \"echo v\" shell=#true defer=#true\n    b \"{{a}}/x\"\n}\n\npane \"p\" {\n    command \"true\"\n    height 3\n    trigger \"file:{{b}}\"\n}\n",
    );
    assert!(
        err.contains("`b` is not deferred but references `a`, which is"),
        "clause 2's refusal, not the site rule's: {err}"
    );
    assert!(!err.contains(SITE_PHRASE), "{err}");
}

#[test]
fn a_declared_deferral_chain_refuses_at_the_site_one_level_deep() {
    let err = load_err(
        "variables {\n    a \"echo v\" shell=#true defer=#true\n    b \"echo {{a}}\" shell=#true defer=#true\n}\n\npane \"p\" {\n    command \"true\"\n    height 3\n    trigger \"file:{{b}}\"\n}\n",
    );
    assert!(err.contains(SITE_PHRASE), "{err}");
    assert!(err.contains("`b`"), "the direct reference is named: {err}");
}

#[test]
fn a_script_body_beginning_with_a_reference_refuses() {
    let err = load_err(
        "variables {\n    rev \"echo v\" shell=#true\n}\n\npane \"p\" {\n    script \"{{rev}}\\necho done\"\n    height 3\n}\n",
    );
    assert!(err.contains("pane \"p\""), "{err}");
    assert!(err.contains("begins with"), "{err}");
    assert!(err.contains("`{{rev}}`"), "{err}");
}

#[test]
fn a_shebang_body_with_a_template_anywhere_in_line_one_refuses() {
    for body in ["#!{{sh}}\\necho hi", "#!/bin/sh {{flag}}\\necho hi"] {
        let err = load_err(&format!(
            "variables {{\n    sh \"echo v\" shell=#true\n    flag \"echo v\" shell=#true\n}}\n\npane \"p\" {{\n    script \"{body}\"\n    height 3\n}}\n"
        ));
        assert!(err.contains("`#!` line"), "{body} → {err}");
    }
}

#[test]
fn a_body_beginning_with_ordinary_text_may_carry_a_template_on_line_one() {
    load_result(
        "variables {\n    rev \"echo v\" shell=#true defer=#true\n}\n\npane \"p\" {\n    script \"[ -n \\\"{{rev}}\\\" ] || exit 0\\necho ok\"\n    height 3\n    shell #true\n}\n",
    )
    .expect("ordinary first bytes with a line-1 template load");
}

#[test]
fn a_shebang_body_may_carry_templates_on_later_lines() {
    for tier in ["defer=#true", ""] {
        load_result(&format!(
            "variables {{\n    rev \"echo v\" shell=#true {tier}\n}}\n\npane \"p\" {{\n    script \"#!/bin/sh\\necho {{{{rev}}}}\"\n    height 3\n}}\n"
        ))
        .unwrap_or_else(|err| panic!("{tier:?} → {err:#}"));
    }
}

#[test]
fn a_literal_double_brace_that_is_not_a_reference_is_not_a_leading_reference() {
    load_result("pane \"p\" {\n    script \"{{ } | keys\"\n    height 3\n    shell #true\n}\n")
        .expect("a jq-shaped body is not a template");
    load_result("pane \"p\" {\n    script \"{{ rev }} says hi\"\n    height 3\n    shell #true\n}\n")
        .expect("inner whitespace is literal text");
}

#[test]
fn an_inherited_value_expands_byte_identically_to_a_declared_one() {
    let inherited = "variables {\n    dir \"/tmp/zz\"\n}\n\ndefaults {\n    trigger \"file:{{dir}}/s\"\n    height 3\n}\n\npane \"p\" {\n    command \"true\"\n}\n";
    let declared = "variables {\n    dir \"/tmp/zz\"\n}\n\npane \"p\" {\n    command \"true\"\n    height 3\n    trigger \"file:{{dir}}/s\"\n}\n";
    let spec_of = |text: &str| {
        parse_styled(text, false)
            .expect("parses")
            .into_registry(&bindings(&[("dir", "/tmp/zz")]))
            .expect("resolves")
            .spec(SourceId(0))
            .triggers
            .clone()
    };
    let expected = vec![parse_trigger("file:/tmp/zz/s").expect("parses")];
    assert_eq!(spec_of(inherited), expected);
    assert_eq!(spec_of(declared), expected);
}

#[test]
fn a_shell_dialect_resolves_to_the_expanded_mode() {
    let registry = parse_styled(
        "variables {\n    sh \"sh\"\n}\n\npane \"p\" {\n    command \"echo hi\"\n    height 3\n    shell \"{{sh}}\"\n}\n",
        false,
    )
    .expect("parses")
    .into_registry(&bindings(&[("sh", "sh")]))
    .expect("resolves");
    assert_eq!(registry.spec(SourceId(0)).shell, ShellMode::Named("sh".to_string()));
}

#[test]
fn the_word_split_still_refuses_unbalanced_quoting_in_template_text() {
    let err = load_err(
        "variables {\n    x \"echo v\" shell=#true\n}\n\npane \"p\" {\n    command \"echo {{x}} 'oops\"\n    height 3\n}\n",
    );
    assert!(err.contains("unbalanced quoting"), "{err}");
}
