use ratto::dashboard_file::{finish_load, DashboardFile, LayoutDecl, PaneDecl};
use ratto::dashboard_kdl::parse;
use ratto::derivation::{load_set, next_derivation, placed_refusal, spawn_closure, DerivationStep};
use ratto::registry::ShellDecl;
use ratto::shell::{echo_lines, DerivationFailure};
use ratto::template::{Bindings, Template};
use ratto::variables::{Tier, VarSource, Variable, VariableBlock};

const ONE_PANE: &str = "\npane \"a\" { command \"true\"\nheight 3 }\n";

fn vars(text: &str) -> VariableBlock {
    parse(text).expect("the board parses").variables
}

/// The load-time walk, driven to the end with `run` standing in for the
/// shell.
fn resolve_variables(
    block: &VariableBlock,
    overrides: &Bindings,
    run: &mut dyn FnMut(&str, &str) -> String,
) -> Result<Bindings, DerivationFailure> {
    let wanted = load_set(block);
    let mut so_far = Bindings::new();
    loop {
        match next_derivation(block, &wanted, overrides, &mut so_far) {
            DerivationStep::Done => return Ok(so_far),
            DerivationStep::Derive { index, command, .. } => {
                let name = block.vars[index].name.clone();
                let value = run(&name, &command);
                so_far.insert(name, value);
            }
            DerivationStep::Refused { failure, .. } => return Err(failure),
        }
    }
}

fn names(b: &Bindings) -> Vec<&str> {
    let mut v: Vec<&str> = b.entries.iter().map(|(n, _)| n.as_str()).collect();
    v.sort();
    v
}

fn load_command(name: &str, command: &str) -> Variable {
    Variable {
        name: name.to_string(),
        source: VarSource::LoadCommand(ShellDecl::Platform),
        text: Template::extract(command),
        tier: Tier::Load,
        span_start: 0,
        span_end: 0,
    }
}

#[test]
fn resolving_walks_dependencies_first_and_never_runs_an_overridden_command() {
    let block = vars(&format!(
        r#"
variables {{
    sel   "{{{{store}}}}/x"
    store "git rev-parse --git-common-dir" shell=#true
    other "echo hi" shell=#true
}}
{ONE_PANE}"#
    ));
    let mut asked: Vec<String> = Vec::new();
    let out = resolve_variables(&block, &Bindings::new(), &mut |name, command| {
        asked.push(name.to_string());
        format!("<{}>", command)
    })
    .ok()
    .expect("resolves");
    assert_eq!(asked, vec!["store", "other"]);
    assert_eq!(
        out.get("store").map(String::as_str),
        Some("<git rev-parse --git-common-dir>")
    );
    assert_eq!(
        out.get("sel").map(String::as_str),
        Some("<git rev-parse --git-common-dir>/x")
    );

    let mut asked: Vec<String> = Vec::new();
    let mut overrides = Bindings::new();
    overrides.insert("store".to_string(), "/common".to_string());
    let out = resolve_variables(&block, &overrides, &mut |name, _| {
        asked.push(name.to_string());
        "unreachable".to_string()
    })
    .ok()
    .expect("resolves");
    assert_eq!(asked, vec!["other"], "`store`'s command never ran");
    assert_eq!(out.get("sel").map(String::as_str), Some("/common/x"));
}

#[test]
fn a_deferred_variable_has_no_load_time_value() {
    let block = vars(&format!(
        "variables {{\n    head \"git rev-parse HEAD\" shell=#true defer=#true\n    p \"x\"\n}}\n{ONE_PANE}"
    ));
    let out = resolve_variables(&block, &Bindings::new(), &mut |_, _| {
        panic!("a deferred variable is never derived at load")
    })
    .ok()
    .expect("resolves");
    assert_eq!(names(&out), vec!["p"]);
}

#[test]
fn a_deferred_variable_is_not_run_and_is_absent_from_the_load_map() {
    let mut deferred = load_command("head", "echo x");
    deferred.source = VarSource::SpawnCommand(ShellDecl::Platform);
    deferred.tier = Tier::Spawn;
    let block = VariableBlock::new(vec![deferred], vec![0]);
    let bindings = resolve_variables(&block, &Bindings::new(), &mut |_, _| {
        panic!("a deferred variable is never derived at load")
    })
    .ok()
    .expect("resolves");
    assert!(bindings.get("head").is_none());
}

#[test]
fn a_spawn_walk_covers_what_its_strings_need_and_nothing_else() {
    let block = vars(&format!(
        "variables {{\n    base \"git rev-parse HEAD\" shell=#true defer=#true\n    short \"echo {{{{base}}}}\" shell=#true defer=#true\n    lone \"date\" shell=#true defer=#true\n    p \"x\"\n}}\n{ONE_PANE}"
    ));
    let wanted = spawn_closure(&block, &["short".to_string()]);
    let marked: Vec<&str> = block
        .vars
        .iter()
        .zip(wanted.iter())
        .filter(|(_, w)| **w)
        .map(|(v, _)| v.name.as_str())
        .collect();
    assert_eq!(marked, vec!["base", "short"]);
    assert!(spawn_closure(&block, &["p".to_string()]).iter().all(|w| !w));
}

#[test]
fn an_undeclared_reference_in_a_command_is_refused_before_anything_runs() {
    let mut v = load_command("a", "echo {{missing}}");
    v.text = Template::extract("echo {{missing}}");
    let block = VariableBlock::new(vec![v], vec![0]);
    let out = resolve_variables(&block, &Bindings::new(), &mut |_, _| panic!("nothing runs"));
    match out {
        Err(DerivationFailure::Expansion(m)) => assert_eq!(m.name, "missing"),
        _ => panic!("expected an expansion refusal"),
    }
}

#[test]
fn a_failed_derivation_is_placed_at_its_declaration() {
    let text = "variables {\n    head \"git\" shell=#true\n}\n";
    assert_eq!(
        placed_refusal(text, 16, "variable `head`: it failed"),
        "line 2, column 5: variable `head`: it failed"
    );
}

#[test]
fn the_registry_speaks_before_the_bindings() {
    let file = DashboardFile {
        panes: Vec::new(),
        layout: Some(vec![LayoutDecl::Pane("a".to_string())]),
        defaults: PaneDecl::default(),
        ..DashboardFile::default()
    };
    let err = finish_load(file, &Bindings::new()).unwrap_err();
    assert_eq!(err, "no panes declared: a dashboard needs at least one pane");
}

#[test]
fn the_stderr_echo_keeps_its_first_lines_and_marks_the_rest() {
    let lines = echo_lines(b"one\ntwo\nthree\n", 2);
    assert_eq!(lines, vec![b"one".to_vec(), b"two".to_vec(), "…".as_bytes().to_vec()]);
    assert_eq!(echo_lines(b"one\ntwo\n", 2), vec![b"one".to_vec(), b"two".to_vec()]);
    assert_eq!(echo_lines(b"", 5), Vec::<Vec<u8>>::new());
    assert_eq!(echo_lines(b"a\n\nb", 5), vec![b"a".to_vec(), Vec::new(), b"b".to_vec()]);
}
