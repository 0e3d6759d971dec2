use ratto::audit::SiteKey;
use ratto::dashboard_kdl::{parse, parse_styled};
use ratto::derivation::{load_set, next_derivation, DerivationStep};
use ratto::partial::{expand_partial, resolve_partial, Expanded, Partial, Resolved};
use ratto::template::{Bindings, Template};
use ratto::variables::VariableBlock;

const ONE_PANE: &str = "\npane \"a\" { command \"true\"\nheight 3 }\n";

fn vars(text: &str) -> VariableBlock {
    parse(text).expect("the board parses").variables
}

fn known(p: &Partial, name: &str) -> Option<Option<String>> {
    p.get(name).map(|r| match r {
        Resolved::Known(v) => Some(v.clone()),
        Resolved::Opaque => None,
    })
}

fn expanded(e: Expanded) -> Result<String, Vec<String>> {
    match e {
        Expanded::Known(t) => Ok(t),
        Expanded::Skipped(b) => Err(b),
    }
}

/// The load-time walk, every command answered by `run`.
fn resolve_variables(block: &VariableBlock, run: &dyn Fn(&str) -> String) -> Bindings {
    let wanted = load_set(block);
    let mut so_far = Bindings::new();
    loop {
        match next_derivation(block, &wanted, &Bindings::new(), &mut so_far) {
            DerivationStep::Done => return so_far,
            DerivationStep::Derive { index, .. } => {
                let name = block.vars[index].name.clone();
                let value = run(&name);
                so_far.insert(name, value);
            }
            DerivationStep::Refused { .. } => panic!("refused"),
        }
    }
}

#[test]
fn partial_resolution_knows_constants_and_chains_and_stays_opaque_past_a_command() {
    let block = vars(&format!(
        r#"
variables {{
    plan  "/tmp/plans/0028"
    sub   "{{{{plan}}}}/tasks"
    store "git rev-parse --git-common-dir" shell=#true
    sel   "{{{{store}}}}/x"
    head  "git rev-parse HEAD" shell=#true defer=#true
}}
{ONE_PANE}"#
    ));
    let partial = resolve_partial(&block, &Bindings::new());
    assert_eq!(known(&partial, "plan"), Some(Some("/tmp/plans/0028".into())));
    assert_eq!(known(&partial, "sub"), Some(Some("/tmp/plans/0028/tasks".into())));
    assert_eq!(known(&partial, "store"), Some(None));
    assert_eq!(known(&partial, "sel"), Some(None));
    assert_eq!(known(&partial, "head"), Some(None));

    let mut overrides = Bindings::new();
    overrides.insert("store".into(), "/common".into());
    let partial = resolve_partial(&block, &overrides);
    assert_eq!(known(&partial, "store"), Some(Some("/common".into())));
    assert_eq!(known(&partial, "sel"), Some(Some("/common/x".into())));
}

#[test]
fn a_partial_expansion_is_either_exact_bytes_or_names_what_blocked_it() {
    let block = vars(&format!(
        "variables {{\n    iv \"bad\"\n    store \"git rev-parse\" shell=#true\n}}\n{ONE_PANE}"
    ));
    let partial = resolve_partial(&block, &Bindings::new());
    assert_eq!(expanded(expand_partial(&Template::extract("{{iv}}"), &partial)), Ok("bad".to_string()));
    assert_eq!(
        expanded(expand_partial(&Template::extract("file:{{store}}/events"), &partial)),
        Err(vec!["store".to_string()])
    );
    assert_eq!(
        expanded(expand_partial(&Template::extract("file:./stamp"), &partial)),
        Ok("file:./stamp".to_string())
    );
    assert_eq!(
        expanded(expand_partial(&Template::literal("file:{{store}}"), &partial)),
        Ok("file:{{store}}".to_string())
    );
}

#[test]
fn every_known_value_on_a_mixed_board_matches_the_real_one() {
    let block = vars(&format!(
        r#"
variables {{
    store "git rev-parse --git-common-dir" shell=#true
    plan  "/a/b"
    sel   "{{{{plan}}}}/x"
    tainted "{{{{store}}}}/y"
    head  "git rev-parse HEAD" shell=#true defer=#true
}}
{ONE_PANE}"#
    ));
    let full = resolve_variables(&block, &|name| format!("<{name}>"));
    let partial = resolve_partial(&block, &Bindings::new());
    assert_eq!(known(&partial, "store"), Some(None));
    assert_eq!(known(&partial, "tainted"), Some(None));
    assert_eq!(known(&partial, "sel"), Some(Some("/a/b/x".into())));
    for (name, resolved) in &partial.entries {
        if let Resolved::Known(value) = resolved {
            assert_eq!(full.get(name), Some(value), "{name}");
        }
    }
}

#[test]
fn partial_and_full_resolution_agree_when_nothing_needs_running() {
    let block = vars(&format!(
        "variables {{\n    a \"x\"\n    b \"{{{{a}}}}/y\"\n}}\n{ONE_PANE}"
    ));
    let full = resolve_variables(&block, &|_| unreachable!());
    let partial = resolve_partial(&block, &Bindings::new());
    for (name, value) in &full.entries {
        assert_eq!(known(&partial, name), Some(Some(value.clone())), "{name}");
    }
}

#[test]
fn the_audit_checks_known_sites_and_records_opaque_ones() {
    let file = parse_styled(
        "variables {\n    iv \"5s\"\n    store \"git rev-parse\" shell=#true\n}\n\npane \"p\" {\n    command \"true\"\n    height 3\n    interval \"{{iv}}\"\n    trigger \"file:{{store}}/events\"\n}\n",
        false,
    )
    .expect("parses");
    let partial = resolve_partial(&file.variables, &Bindings::new());
    let audit = file.audit_sites(&partial).ok().expect("audits");
    assert!(audit.checked.iter().any(|site| site.key.name() == "interval"));
    let skipped = audit
        .unchecked
        .iter()
        .find(|site| site.key == SiteKey::Trigger)
        .expect("the opaque site is a row, not a guess");
    assert_eq!(skipped.blockers, vec!["store".to_string()]);

    let bad = parse_styled(
        "variables {\n    iv \"bad\"\n}\n\npane \"p\" {\n    command \"true\"\n    height 3\n    interval \"{{iv}}\"\n}\n",
        false,
    )
    .expect("parses");
    let partial = resolve_partial(&bad.variables, &Bindings::new());
    let err = match bad.audit_sites(&partial) {
        Err(e) => e,
        Ok(_) => panic!("refuses"),
    };
    assert!(err.contains("invalid duration"), "{err}");
}
