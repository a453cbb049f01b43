use taskdsl::{loads_all, plan, process_forms, Action, Context, EvalError, Host, Plan};

fn context(src: &str) -> Context {
    let forms = loads_all(src).unwrap();
    let mut ctx = Context::new();
    let mut host = Host::new(vec![]);
    process_forms(&forms, &mut ctx, &mut host).unwrap();
    ctx
}

fn names(v: &[&str]) -> Vec<String> {
    v.iter().map(|s| s.to_string()).collect()
}

fn runs(p: &Plan) -> Vec<(String, String)> {
    p.actions
        .iter()
        .filter_map(|a| match a {
            Action::Run { name, command } => Some((name.clone(), command.clone())),
            _ => None,
        })
        .collect()
}

#[test]
fn group_member_uses_the_inherited_template() {
    let ctx = context("(def (x \"1\"))\n(group g \"G\" (cmd \"run {x}\")\n (task a \"A\")\n (task b \"B\" (cmd \"own {x}\")))");
    let p = plan(&ctx, &names(&["g.a", "g.b"]), &vec![]);
    assert!(p.error.is_none());
    assert_eq!(
        runs(&p),
        vec![("g.a".to_string(), "run 1".to_string()), ("g.b".to_string(), "own 1".to_string())]
    );
}

#[test]
fn dependencies_run_first_and_once() {
    let ctx = context("(task a \"A\" (shell \"echo a\"))\n(task b \"B\" (steps a) (shell \"echo b\"))\n(task c \"C\" (steps a) (shell \"echo c\"))");
    let p = plan(&ctx, &names(&["b", "c"]), &vec![]);
    assert!(p.error.is_none());
    assert_eq!(
        runs(&p),
        vec![
            ("a".to_string(), "echo a".to_string()),
            ("b".to_string(), "echo b".to_string()),
            ("c".to_string(), "echo c".to_string())
        ]
    );
}

#[test]
fn a_prefix_runs_its_tasks_in_order() {
    let ctx = context("(task g.two \"2\" (shell \"two\"))\n(task g.one \"1\" (shell \"one\"))\n(task gx \"x\" (shell \"x\"))");
    let p = plan(&ctx, &names(&["g"]), &vec![]);
    assert!(p.error.is_none());
    assert_eq!(p.actions.len(), 2);
    assert_eq!(
        runs(&p),
        vec![("g.one".to_string(), "one".to_string()), ("g.two".to_string(), "two".to_string())]
    );
}

#[test]
fn a_group_is_announced_before_its_members() {
    let ctx = context("(group g \"G\" (cmd \"go\") (task b \"B\") (task a \"A\"))");
    let p = plan(&ctx, &names(&["g"]), &vec![]);
    assert!(matches!(&p.actions[0], Action::Group(g) if g == "g"));
    assert_eq!(
        runs(&p),
        vec![("g.a".to_string(), "go".to_string()), ("g.b".to_string(), "go".to_string())]
    );
}

#[test]
fn unknown_names_are_reported_and_skipped() {
    let ctx = context("(task a \"A\" (shell \"echo a\"))");
    let p = plan(&ctx, &names(&["zzz", "a"]), &vec![]);
    assert!(p.error.is_none());
    assert!(matches!(&p.actions[0], Action::NotFound(n) if n == "zzz"));
    assert_eq!(runs(&p), vec![("a".to_string(), "echo a".to_string())]);
}

#[test]
fn command_composition() {
    let ctx = context("(base-cmd \"python -m\")\n(def (x \"global\") (y \"g\"))\n(task m \"M\" (cmd \"mod {x} {y}\") (x \"local\"))\n(task s \"S\" (cmd \"ignored\") (shell \"raw {y}\"))");
    let p = plan(&ctx, &names(&["m", "s"]), &names(&["--v", "2"]));
    assert!(p.error.is_none());
    assert_eq!(
        runs(&p),
        vec![
            ("m".to_string(), "python -m mod local g --v 2".to_string()),
            ("s".to_string(), "raw g --v 2".to_string())
        ]
    );
}

#[test]
fn failures_stop_the_plan() {
    let ctx = context("(task a \"A\")\n(task b \"B\" (steps missing) (shell \"b\"))\n(task c \"C\" (shell \"{nope}\"))\n(task d \"D\" (steps e) (shell \"d\"))\n(task e \"E\" (steps d) (shell \"e\"))\n(task f \"F\" (shell \"f\"))");
    let p = plan(&ctx, &names(&["f", "a", "f"]), &vec![]);
    assert_eq!(runs(&p), vec![("f".to_string(), "f".to_string())]);
    match p.error {
        Some(EvalError::NoCommand { message, .. }) => assert_eq!(message, "a"),
        other => panic!("{:?}", other),
    }
    match plan(&ctx, &names(&["b"]), &vec![]).error {
        Some(EvalError::TaskNotFound { message, .. }) => assert_eq!(message, "missing"),
        other => panic!("{:?}", other),
    }
    match plan(&ctx, &names(&["c"]), &vec![]).error {
        Some(EvalError::UndefinedVariable { message, .. }) => assert_eq!(message, "nope"),
        other => panic!("{:?}", other),
    }
    assert!(matches!(plan(&ctx, &names(&["d"]), &vec![]).error, Some(EvalError::Other { .. })));
}
