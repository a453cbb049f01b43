use taskdsl::config::{parse_config, parse_env_file};
use taskdsl::{loads_all, process_forms, Context, EvalError, Halt, Host, Reply, Request};

fn run(src: &str, replies: Vec<Reply>) -> (Result<(), Halt>, Context) {
    let forms = loads_all(src).unwrap();
    let mut ctx = Context::new();
    let mut host = Host::new(replies);
    let r = process_forms(&forms, &mut ctx, &mut host);
    (r, ctx)
}

fn def(ctx: &Context, name: &str) -> Option<String> {
    ctx.defs.get(&name.to_string()).cloned()
}

fn failure(r: Result<(), Halt>) -> EvalError {
    match r {
        Err(Halt::Failed(e)) => e,
        other => panic!("{:?}", other),
    }
}

#[test]
fn typed_definition_within_its_type() {
    let (r, ctx) = run("(types (mode '(\"a\" \"b\")))\n(def ((x mode) \"a\"))", vec![]);
    assert!(r.is_ok());
    assert_eq!(def(&ctx, "x").unwrap(), "a");
}

#[test]
fn typed_definition_outside_its_type() {
    let (r, _) = run("(types (mode '(\"a\" \"b\")))\n(def ((x mode) \"c\"))", vec![]);
    match failure(r) {
        EvalError::TypeError { var, value, allowed, line } => {
            assert_eq!(var, "x");
            assert_eq!(value, "c");
            assert_eq!(allowed, vec!["a", "b"]);
            assert_eq!(line, 2);
        }
        other => panic!("{:?}", other),
    }
}

#[test]
fn bracketed_definition_keys_and_single_value_types() {
    let (r, ctx) = run("(types (env \"prod\"))\n(def (([y env]) \"prod\") (z \"{y}!\"))", vec![]);
    assert!(r.is_ok(), "{:?}", r);
    assert_eq!(def(&ctx, "y").unwrap(), "prod");
    assert_eq!(def(&ctx, "z").unwrap(), "prod!");
}

#[test]
fn undefined_variable_in_a_definition() {
    let (r, _) = run("(def (x \"{y}\"))", vec![]);
    match failure(r) {
        EvalError::UndefinedVariable { message, line: 1 } => assert_eq!(message, "y"),
        other => panic!("{:?}", other),
    }
}

#[test]
fn base_command_and_unknown_forms() {
    let (r, ctx) = run("(base-cmd \"python -m\")", vec![]);
    assert!(r.is_ok());
    assert_eq!(ctx.base_cmd.unwrap(), "python -m");
    let (r, _) = run("(base-cmd \"a\")\n\n(frob 1)", vec![]);
    assert!(matches!(failure(r), EvalError::Other { line: 3, .. }));
    let (r, _) = run("(base-cmd a)", vec![]);
    assert!(matches!(failure(r), EvalError::Other { line: 1, .. }));
}

#[test]
fn environment_file_sets_variables() {
    let content = "A=1\n# comment\n\n  B = \"two\"  \r\nnoeq\nC=\"\n".to_string();
    let src = "(load-env \".env\")";
    let (r, _) = run(src, vec![]);
    match r {
        Err(Halt::Needs(Request::ReadFile(p))) => assert_eq!(p, ".env"),
        other => panic!("{:?}", other),
    }
    let (r, _) = run(src, vec![Reply::Text(content.clone())]);
    match r {
        Err(Halt::Needs(Request::SetVars(v))) => assert_eq!(
            v,
            vec![
                ("A".to_string(), "1".to_string()),
                ("B".to_string(), "two".to_string()),
                ("C".to_string(), "\"".to_string())
            ]
        ),
        other => panic!("{:?}", other),
    }
    let (r, _) = run(src, vec![Reply::Text(content), Reply::Done]);
    assert!(r.is_ok());
    let (r, _) = run(src, vec![Reply::Failed("missing".to_string())]);
    assert!(matches!(failure(r), EvalError::Other { line: 1, .. }));
}

#[test]
fn environment_file_lines() {
    let v = parse_env_file(&"X=a=b\n#Y=1\nZ='q'".to_string());
    assert_eq!(
        v,
        vec![("X".to_string(), "a=b".to_string()), ("Z".to_string(), "'q'".to_string())]
    );
}

#[test]
fn configuration_fields() {
    let src = "(load-config \"c.json\")\n(def (k (or (conf \"k\") \"none\")) (n (or (conf \"n\") \"none\")))";
    let (r, ctx) = run(src, vec![Reply::Text("{\"k\": \"v\", \"n\": 3}".to_string())]);
    assert!(r.is_ok(), "{:?}", r);
    assert_eq!(def(&ctx, "k").unwrap(), "v");
    assert_eq!(def(&ctx, "n").unwrap(), "none");
    let (r, _) = run(src, vec![Reply::Text("{not json".to_string())]);
    assert!(matches!(failure(r), EvalError::Other { line: 1, .. }));
}

#[test]
fn configuration_parsing() {
    let t = parse_config(&"{\"a\": \"x\", \"b\": [1], \"c\": \"y\"}".to_string()).unwrap();
    assert_eq!(t.len(), 2);
    assert_eq!(t.get(&"c".to_string()).unwrap(), "y");
    assert!(t.get(&"b".to_string()).is_none());
    assert_eq!(parse_config(&"[1, 2]".to_string()).unwrap().len(), 0);
    assert!(parse_config(&"{".to_string()).is_err());
}

#[test]
fn non_string_definitions_are_empty() {
    let (r, ctx) = run("(def (x '(a b)))", vec![]);
    assert!(r.is_ok());
    assert_eq!(def(&ctx, "x").unwrap(), "");
}

#[test]
fn tasks_and_their_properties() {
    let src = "(task build \"Build\" (desc \"Compiles\") (meta (owner me) (\"k\" \"v\"))\n (cmd \"make {target}\") (shell \"sh-it\") (params \"p\") (steps fetch \"skip\" gen) (target \"all\") (mode fast))";
    let (r, ctx) = run(src, vec![]);
    assert!(r.is_ok());
    let t = ctx.tasks.get(&"build".to_string()).unwrap();
    assert_eq!(t.title, "Build");
    assert_eq!(t.desc.as_deref(), Some("Compiles"));
    assert_eq!(t.meta.get(&"owner".to_string()).unwrap(), "me");
    assert_eq!(t.meta.get(&"k".to_string()).unwrap(), "v");
    assert_eq!(t.cmd.as_deref(), Some("make {target}"));
    assert_eq!(t.shell.as_deref(), Some("sh-it"));
    assert_eq!(t.params.as_deref(), Some("p"));
    assert_eq!(t.steps, vec!["fetch", "gen"]);
    assert_eq!(t.props.get(&"target".to_string()).unwrap(), "all");
    assert_eq!(t.props.get(&"mode".to_string()).unwrap(), "fast");
}

#[test]
fn malformed_task_and_group() {
    let (r, _) = run("(task \"x\" \"T\")", vec![]);
    assert!(matches!(failure(r), EvalError::Other { line: 1, .. }));
    let (r, _) = run("\n(group g)", vec![]);
    assert!(matches!(failure(r), EvalError::Other { line: 2, .. }));
    let (r, _) = run("(group g \"G\" (task t 5))", vec![]);
    assert!(matches!(failure(r), EvalError::Other { line: 1, .. }));
}

#[test]
fn group_members_inherit_command_and_params() {
    let src = "(group g \"G\" (cmd \"run {x}\") (params \"gp\") (desc \"group\")\n  (task a \"A\")\n  (task b \"B\" (cmd \"own\") (params \"bp\")))";
    let (r, ctx) = run(src, vec![]);
    assert!(r.is_ok());
    let g = ctx.groups.get(&"g".to_string()).unwrap();
    assert_eq!(g.desc.as_deref(), Some("group"));
    let a = ctx.tasks.get(&"g.a".to_string()).unwrap();
    assert_eq!(a.name, "g.a");
    assert_eq!(a.cmd.as_deref(), Some("run {x}"));
    assert_eq!(a.params.as_deref(), Some("gp"));
    let b = ctx.tasks.get(&"g.b".to_string()).unwrap();
    assert_eq!(b.cmd.as_deref(), Some("own"));
    assert_eq!(b.params.as_deref(), Some("bp"));
    assert!(ctx.tasks.get(&"a".to_string()).is_none());
}

#[test]
fn later_definitions_win() {
    let (r, ctx) = run("(def (x \"1\"))\n(def (x \"2\") (y \"{x}\"))", vec![]);
    assert!(r.is_ok());
    assert_eq!(def(&ctx, "x").unwrap(), "2");
    assert_eq!(def(&ctx, "y").unwrap(), "2");
    assert_eq!(ctx.defs.len(), 2);
}
