use taskdsl::host::timestamp_reply;
use taskdsl::{eval_expr, loads_all, Context, EvalError, Halt, Host, Reply, Request, SExp, Table, Value};

fn expr(src: &str) -> SExp {
    let wrapped = format!("({})", src);
    match loads_all(&wrapped).unwrap().remove(0) {
        SExp::List(mut v, _) => v.remove(0),
        other => panic!("{:?}", other),
    }
}

fn vars(pairs: &[(&str, &str)]) -> Table<String> {
    let mut t = Table::new();
    for (k, v) in pairs {
        t.insert(k.to_string(), v.to_string());
    }
    t
}

fn eval_with(src: &str, replies: Vec<Reply>) -> Result<Value, Halt> {
    let ctx = Context::new();
    let mut host = Host::new(replies);
    eval_expr(&expr(src), &vars(&[("who", "world")]), &ctx, &mut host)
}

fn text_of(r: Result<Value, Halt>) -> String {
    match r {
        Ok(Value::Str(s)) => s,
        other => panic!("{:?}", other),
    }
}

fn failure(r: Result<Value, Halt>) -> EvalError {
    match r {
        Err(Halt::Failed(e)) => e,
        other => panic!("{:?}", other),
    }
}

#[test]
fn strings_are_interpolated_and_symbols_looked_up() {
    assert_eq!(text_of(eval_with("\"hello {who}\"", vec![])), "hello world");
    assert_eq!(text_of(eval_with("who", vec![])), "world");
    match failure(eval_with("nobody", vec![])) {
        EvalError::UndefinedVariable { message, line: 1 } => assert_eq!(message, "nobody"),
        other => panic!("{:?}", other),
    }
}

#[test]
fn quoted_lists_are_literal() {
    match eval_with("'(a \"b\" 3)", vec![]) {
        Ok(Value::List(v)) => assert_eq!(v, vec!["a", "b", "3"]),
        other => panic!("{:?}", other),
    }
    assert!(matches!(failure(eval_with("'(a (b))", vec![])), EvalError::NonLiteralInQuoted { .. }));
    assert_eq!(text_of(eval_with("'who", vec![])), "world");
}

#[test]
fn empty_list_is_nothing_and_calls_need_a_symbol() {
    assert!(matches!(eval_with("()", vec![]), Ok(Value::Nothing)));
    assert!(matches!(failure(eval_with("(\"x\")", vec![])), EvalError::InvalidFunctionCall { .. }));
    match failure(eval_with("(frobnicate 1)", vec![])) {
        EvalError::UnknownFunction { message, .. } => assert_eq!(message, "frobnicate"),
        other => panic!("{:?}", other),
    }
}

#[test]
fn or_takes_the_first_present_value() {
    assert_eq!(text_of(eval_with("(or (env \"A\") \"fallback\")", vec![Reply::Missing])), "fallback");
    assert_eq!(text_of(eval_with("(or (env \"A\") \"fallback\")", vec![Reply::Text("set".to_string())])), "set");
    assert!(matches!(eval_with("(or)", vec![]), Ok(Value::Nothing)));
}

#[test]
fn and_stops_at_the_first_absent_value() {
    assert_eq!(text_of(eval_with("(and \"a\" \"b\")", vec![])), "b");
    assert!(matches!(eval_with("(and \"a\" (env \"X\") undefined)", vec![Reply::Missing]), Ok(Value::Nothing)));
}

#[test]
fn if_and_equal() {
    assert_eq!(text_of(eval_with("(if (equal? \" a \" \"a\") \"yes\" \"no\")", vec![])), "yes");
    assert_eq!(text_of(eval_with("(if \"false\" \"yes\" \"no\")", vec![])), "no");
    assert_eq!(text_of(eval_with("(equal? \"a\" \"b\")", vec![])), "false");
    assert!(matches!(failure(eval_with("(if \"true\" \"x\")", vec![])), EvalError::InvalidFunctionCall { .. }));
    assert!(matches!(failure(eval_with("(if () \"x\" \"y\")", vec![])), EvalError::Other { .. }));
}

#[test]
fn outside_requests_stop_evaluation_until_answered() {
    match eval_with("(env \"HOME\")", vec![]) {
        Err(Halt::Needs(Request::EnvVar(v))) => assert_eq!(v, "HOME"),
        other => panic!("{:?}", other),
    }
    match eval_with("(shell \"echo {who}\")", vec![]) {
        Err(Halt::Needs(Request::Shell(c))) => assert_eq!(c, "echo world"),
        other => panic!("{:?}", other),
    }
    assert!(matches!(eval_with("(git-root)", vec![]), Err(Halt::Needs(Request::GitRoot))));
    assert!(matches!(eval_with("(current-timestamp)", vec![]), Err(Halt::Needs(Request::Timestamp))));
}

#[test]
fn shell_output_is_trimmed_or_split() {
    assert_eq!(text_of(eval_with("(shell \"echo hi\")", vec![Reply::Text("hi\n".to_string())])), "hi");
    match eval_with("(from-shell \"ls\")", vec![Reply::Text(" a  b\nc ".to_string())]) {
        Ok(Value::List(v)) => assert_eq!(v, vec!["a", "b", "c"]),
        other => panic!("{:?}", other),
    }
    assert!(matches!(
        failure(eval_with("(shell \"x\")", vec![Reply::Failed("no sh".to_string())])),
        EvalError::ExecutionError { line: 1, .. }
    ));
    assert!(matches!(failure(eval_with("(shell)", vec![])), EvalError::InvalidFunctionCall { .. }));
}

#[test]
fn git_root_and_timestamp_answers() {
    assert_eq!(text_of(eval_with("(git-root)", vec![Reply::Text("/repo\n".to_string())])), "/repo");
    assert_eq!(
        text_of(eval_with("(current-timestamp)", vec![Reply::Text("2024-01-01T00:00:00+00:00".to_string())])),
        "2024-01-01T00:00:00+00:00"
    );
}

#[test]
fn conf_reads_string_fields() {
    let mut ctx = Context::new();
    ctx.config = Some(vars(&[("k", "v")]));
    let mut host = Host::new(vec![]);
    match eval_expr(&expr("(conf \"k\")"), &vars(&[]), &ctx, &mut host) {
        Ok(Value::Str(s)) => assert_eq!(s, "v"),
        other => panic!("{:?}", other),
    }
    assert!(matches!(eval_expr(&expr("(conf \"z\")"), &vars(&[]), &ctx, &mut host), Ok(Value::Nothing)));
    assert_eq!(host.next, 0);
}

#[test]
fn answers_are_consumed_in_order() {
    let ctx = Context::new();
    let mut host = Host::new(vec![Reply::Text("1".to_string()), Reply::Text("2".to_string())]);
    let e = expr("(equal? (env \"A\") (env \"B\"))");
    assert_eq!(text_of(eval_expr(&e, &vars(&[]), &ctx, &mut host)), "false");
    assert_eq!(host.next, 2);
}

#[test]
fn value_as_str() {
    assert_eq!(Value::Str("x".to_string()).as_str().unwrap(), "x");
    assert!(matches!(Value::Nothing.as_str(), Err(EvalError::Other { line: 0, .. })));
}

#[test]
fn timestamp_reply_holds_text() {
    match timestamp_reply() {
        Reply::Text(t) => {
            assert!(t.len() >= 20);
            assert!(t.contains('T'));
        }
        other => panic!("{:?}", other),
    }
}
